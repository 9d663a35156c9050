use vstd::prelude::*;
use vstd::string::StrSliceExecFns;
use vstd::utf8::*;

use crate::error::{StorageError, PackFsErrorOpt, invalid_utf8_error, invalid_utf8_message};
use crate::fields::{join_fields, join_bytes, split_fields, split_bytes, lemma_split_fields_utf8};
use crate::meta::{PackFileMeta, ScopeMeta};
use crate::packing::SizeRule;
use crate::reader::{MemoryFileReader, spec_read_line, lemma_pop_char_valid, pop_char};
use crate::text::{
    spec_decimal, decimal_bytes, decimal_u64, parse_unsigned, spec_parse_unsigned, parse_unsigned_why,
    ParseFault, parse_fault,
};

verus! {

/// How the meta file records one pack: its name and hash, and for the split
/// layout its size too, separated by commas.
pub open spec fn entry_bytes(rule: SizeRule, m: PackFileMeta) -> Seq<u8> {
    let base = encode_utf8(m.name@) + seq![44u8] + encode_utf8(m.hash@);
    match rule {
        SizeRule::Legacy => base,
        SizeRule::Split => base + seq![44u8] + spec_decimal(m.size as nat),
    }
}

/// The line of bucket `b`: the entries of its packs separated by spaces, or
/// nothing when there is no such bucket.
pub open spec fn bucket_line(rule: SizeRule, packs: Seq<Vec<PackFileMeta>>, b: int) -> Seq<u8> {
    if 0 <= b < packs.len() {
        join_fields(packs[b]@.map_values(|m: PackFileMeta| entry_bytes(rule, m)), 32u8)
    } else {
        Seq::empty()
    }
}

/// The lines of the first `n` buckets, each ended by a newline.
pub open spec fn bucket_lines(rule: SizeRule, packs: Seq<Vec<PackFileMeta>>, n: nat) -> Seq<u8>
    decreases n,
{
    if n == 0 {
        Seq::empty()
    } else {
        bucket_lines(rule, packs, (n - 1) as nat) + bucket_line(rule, packs, n - 1) + seq![10u8]
    }
}

/// The first line of the meta file: bucket count, pack size limit and time
/// of writing.
pub open spec fn meta_header(buckets: nat, max_pack_size: nat, last_modified: nat) -> Seq<u8> {
    spec_decimal(buckets) + seq![32u8] + spec_decimal(max_pack_size) + seq![32u8] + spec_decimal(
        last_modified,
    )
}

/// The bytes of the meta file of a scope.
pub open spec fn meta_file(rule: SizeRule, m: ScopeMeta) -> Seq<u8> {
    meta_header(m.buckets as nat, m.max_pack_size as nat, m.last_modified as nat) + seq![10u8]
        + bucket_lines(rule, m.packs@, m.buckets as nat)
}

fn entry_line_bytes(rule: SizeRule, m: &PackFileMeta) -> (r: Vec<u8>)
    ensures
        r@ == entry_bytes(rule, *m),
{
    let mut out = m.name.as_str().as_bytes_vec();
    out.push(44);
    let mut h = m.hash.as_str().as_bytes_vec();
    out.append(&mut h);
    match rule {
        SizeRule::Legacy => {},
        SizeRule::Split => {
            out.push(44);
            let mut d = decimal_bytes(m.size);
            out.append(&mut d);
        },
    }
    proof {
        assert(out@ =~= entry_bytes(rule, *m));
    }
    out
}

fn bucket_line_bytes(rule: SizeRule, packs: &Vec<Vec<PackFileMeta>>, b: usize) -> (r: Vec<u8>)
    ensures
        r@ == bucket_line(rule, packs@, b as int),
{
    if b >= packs.len() {
        return Vec::new();
    }
    let metas = &packs[b];
    let mut entries: Vec<Vec<u8>> = Vec::new();
    let mut i: usize = 0;
    while i < metas.len()
        invariant
            b < packs@.len(),
            metas == packs@[b as int],
            i <= metas@.len(),
            entries@.map_values(|v: Vec<u8>| v@) == metas@.take(i as int).map_values(
                |m: PackFileMeta| entry_bytes(rule, m),
            ),
        decreases metas@.len() - i,
    {
        let e = entry_line_bytes(rule, &metas[i]);
        let ghost e0 = entries@.map_values(|v: Vec<u8>| v@);
        entries.push(e);
        proof {
            assert(entries@.map_values(|v: Vec<u8>| v@) =~= e0.push(e@));
            assert(metas@.take(i + 1) =~= metas@.take(i as int).push(metas@[i as int]));
            assert(metas@.take(i + 1).map_values(|m: PackFileMeta| entry_bytes(rule, m))
                =~= metas@.take(i as int).map_values(|m: PackFileMeta| entry_bytes(rule, m)).push(
                entry_bytes(rule, metas@[i as int]),
            ));
        }
        i = i + 1;
    }
    proof {
        assert(metas@.take(i as int) =~= metas@);
    }
    join_bytes(&entries, 32)
}

/// The bytes of the meta file of `meta`, as the scope writer lays them out.
pub fn meta_file_bytes(rule: SizeRule, meta: &ScopeMeta) -> (r: Vec<u8>)
    ensures
        r@ == meta_file(rule, *meta),
{
    let mut out = decimal_bytes(meta.buckets);
    out.push(32);
    let mut d = decimal_bytes(meta.max_pack_size);
    out.append(&mut d);
    out.push(32);
    let mut d = decimal_u64(meta.last_modified);
    out.append(&mut d);
    out.push(10);
    let ghost head = out@;
    proof {
        assert(head =~= meta_header(
            meta.buckets as nat,
            meta.max_pack_size as nat,
            meta.last_modified as nat,
        ) + seq![10u8]);
    }
    let mut b: usize = 0;
    while b < meta.buckets
        invariant
            b <= meta.buckets,
            out@ == head + bucket_lines(rule, meta.packs@, b as nat),
        decreases meta.buckets - b,
    {
        let mut line = bucket_line_bytes(rule, &meta.packs, b);
        out.append(&mut line);
        out.push(10);
        proof {
            assert(bucket_lines(rule, meta.packs@, (b + 1) as nat) == bucket_lines(
                rule,
                meta.packs@,
                b as nat,
            ) + bucket_line(rule, meta.packs@, b as int) + seq![10u8]);
            assert(out@ =~= head + bucket_lines(rule, meta.packs@, (b + 1) as nat));
        }
        b = b + 1;
    }
    out
}

/// Why a meta file does not read.
#[derive(Debug, Clone, Copy, PartialEq, Eq)]
pub enum MetaFault {
    /// A line is not valid UTF-8.
    NotUtf8,
    /// A field of the first line is not a 64-bit number, for this reason.
    BadNumber(ParseFault),
    /// The first line holds fewer than three numbers.
    TooFewOptions,
    /// A pack entry lacks a field, or its size is not a number.
    BadPackInfo,
}

/// The numbers of a line of space-separated numbers no larger than `bound`,
/// or `None` when a field is not one.
pub open spec fn parse_numbers(line: Seq<u8>, bound: nat) -> Option<Seq<nat>> {
    let fs = split_fields(line, 32u8);
    if forall|i: int| 0 <= i < fs.len() ==> (#[trigger] spec_parse_unsigned(fs[i], bound)) is Some {
        Some(Seq::new(fs.len(), |i: int| spec_parse_unsigned(fs[i], bound)->Some_0))
    } else {
        None
    }
}

/// Why the first field of `fs` that is not a number no larger than `bound`
/// does not parse.
pub open spec fn first_fault(fs: Seq<Seq<u8>>, bound: nat) -> ParseFault
    decreases fs.len(),
{
    if fs.len() == 0 {
        ParseFault::Empty
    } else if spec_parse_unsigned(fs[0], bound) is None {
        parse_fault(fs[0], bound)
    } else {
        first_fault(fs.drop_first(), bound)
    }
}

/// The name, hash and size of a pack entry, from its comma-separated fields:
/// the split layout records the size as a third field, the first layout
/// records none and the size reads as 0. `None` when a field is missing or
/// the size is not a number.
pub open spec fn meta_entry(rule: SizeRule, f: Seq<u8>) -> Option<(Seq<char>, Seq<char>, nat)> {
    let info = split_fields(f, 44u8);
    match rule {
        SizeRule::Legacy => if info.len() < 2 {
            None
        } else {
            Some((decode_utf8(info[0]), decode_utf8(info[1]), 0))
        },
        SizeRule::Split => if info.len() < 3 {
            None
        } else {
            match spec_parse_unsigned(info[2], usize::MAX as nat) {
                None => None,
                Some(n) => Some((decode_utf8(info[0]), decode_utf8(info[1]), n)),
            }
        },
    }
}

/// The pack entries of the fields of a bucket line: the fields that hold a
/// comma, read as entries; `None` when one of them does not read.
pub open spec fn line_entries(rule: SizeRule, fs: Seq<Seq<u8>>) -> Option<
    Seq<(Seq<char>, Seq<char>, nat)>,
>
    decreases fs.len(),
{
    if fs.len() == 0 {
        Some(Seq::empty())
    } else {
        match line_entries(rule, fs.drop_last()) {
            None => None,
            Some(r) => if fs.last().contains(44u8) {
                match meta_entry(rule, fs.last()) {
                    None => None,
                    Some(e) => Some(r.push(e)),
                }
            } else {
                Some(r)
            },
        }
    }
}

/// Reads `n` bucket lines from `pos` on, each read and parsed before the next:
/// the entries of each and the position after them, or why one does not
/// read.
pub open spec fn read_buckets(rule: SizeRule, data: Seq<u8>, pos: int, n: nat) -> Result<
    (Seq<Seq<(Seq<char>, Seq<char>, nat)>>, int),
    MetaFault,
>
    decreases n,
{
    if n == 0 {
        Ok((Seq::empty(), pos))
    } else {
        match spec_read_line(data, pos) {
            None => Err(MetaFault::NotUtf8),
            Some((l, p)) => match line_entries(rule, split_fields(l, 32u8)) {
                None => Err(MetaFault::BadPackInfo),
                Some(es) => match read_buckets(rule, data, p, (n - 1) as nat) {
                    Err(e) => Err(e),
                    Ok((rest, q)) => Ok((seq![es] + rest, q)),
                },
            },
        }
    }
}

/// What reading a meta file gives: the bucket count, the pack size limit, the
/// time of writing and the name, hash and size of each pack of each bucket; or
/// why it does not read.
pub open spec fn spec_read_scope_meta(rule: SizeRule, data: Seq<u8>) -> Result<
    (nat, nat, nat, Seq<Seq<(Seq<char>, Seq<char>, nat)>>),
    MetaFault,
> {
    match spec_read_line(data, 0) {
        None => Err(MetaFault::NotUtf8),
        Some((l1, p1)) => match parse_numbers(l1, u64::MAX as nat) {
            None => Err(MetaFault::BadNumber(first_fault(split_fields(l1, 32u8), u64::MAX as nat))),
            Some(opts) => if opts.len() < 3 {
                Err(MetaFault::TooFewOptions)
            } else {
                let buckets = (opts[0] as u64) as usize;
                match read_buckets(rule, data, p1, buckets as nat) {
                    Err(e) => Err(e),
                    Ok((entries, _)) => Ok(
                        (buckets as nat, ((opts[1] as u64) as usize) as nat, opts[2], entries),
                    ),
                }
            },
        },
    }
}

/// The name, hash and size of each pack of each bucket.
pub open spec fn meta_records(packs: Seq<Vec<PackFileMeta>>) -> Seq<
    Seq<(Seq<char>, Seq<char>, nat)>,
> {
    packs.map_values(
        |v: Vec<PackFileMeta>| v@.map_values(|m: PackFileMeta| (m.name@, m.hash@, m.size as nat)),
    )
}

fn parse_numbers_exec(line: &Vec<u8>, bound: u64) -> (r: Result<Vec<u64>, ParseFault>)
    ensures
        match parse_numbers(line@, bound as nat) {
            Some(ns) => r matches Ok(v) && v@.len() == ns.len() && forall|i: int|
                0 <= i < ns.len() ==> #[trigger] v@[i] == ns[i],
            None => r matches Err(f) && f == first_fault(split_fields(line@, 32u8), bound as nat),
        },
{
    let fs = split_bytes(line.as_slice(), 32);
    let ghost fv = fs@.map_values(|v: Vec<u8>| v@);
    let mut out: Vec<u64> = Vec::new();
    let mut i: usize = 0;
    proof {
        assert(fv.skip(0) =~= fv);
    }
    while i < fs.len()
        invariant
            fv == fs@.map_values(|v: Vec<u8>| v@),
            fv == split_fields(line@, 32u8),
            i <= fs@.len(),
            out@.len() == i,
            forall|k: int|
                0 <= k < i ==> (#[trigger] spec_parse_unsigned(fv[k], bound as nat)) == Some(
                    out@[k] as nat,
                ),
            first_fault(fv, bound as nat) == first_fault(fv.skip(i as int), bound as nat),
        decreases fs@.len() - i,
    {
        proof {
            assert(fv.skip(i as int)[0] == fv[i as int]);
            assert(fv.skip(i as int).drop_first() =~= fv.skip(i + 1));
        }
        match parse_unsigned_why(fs[i].as_slice(), bound) {
            Ok(n) => {
                out.push(n);
            },
            Err(f) => {
                proof {
                    assert(spec_parse_unsigned(fv[i as int], bound as nat) is None);
                }
                return Err(f);
            },
        }
        i = i + 1;
    }
    proof {
        assert(forall|k: int|
            0 <= k < fv.len() ==> (#[trigger] spec_parse_unsigned(fv[k], bound as nat)) is Some);
    }
    Ok(out)
}

fn has_byte(s: &Vec<u8>, b: u8) -> (r: bool)
    ensures
        r == s@.contains(b),
{
    let mut i: usize = 0;
    while i < s.len()
        invariant
            i <= s@.len(),
            forall|k: int| 0 <= k < i ==> s@[k] != b,
        decreases s@.len() - i,
    {
        if s[i] == b {
            return true;
        }
        i = i + 1;
    }
    false
}

fn utf8_string(b: Vec<u8>) -> (s: String)
    requires
        valid_utf8(b@),
    ensures
        s@ == decode_utf8(b@),
{
    match String::from_utf8(b) {
        Ok(s) => s,
        Err(_) => {
            assert(false);
            String::new()
        },
    }
}

/// The pack recorded by one entry of a bucket line.
fn read_entry(rule: SizeRule, f: &Vec<u8>) -> (r: Option<PackFileMeta>)
    requires
        valid_utf8(f@),
    ensures
        match meta_entry(rule, f@) {
            None => r is None,
            Some(e) => r matches Some(m) && (m.name@, m.hash@, m.size as nat) == e && m.writed,
        },
{
    let info = split_bytes(f.as_slice(), 44);
    proof {
        lemma_split_fields_utf8(f@, 44u8);
    }
    let need: usize = match rule {
        SizeRule::Legacy => 2,
        SizeRule::Split => 3,
    };
    if info.len() < need {
        return None;
    }
    proof {
        assert(info@[0]@ == split_fields(f@, 44u8)[0]);
        assert(info@[1]@ == split_fields(f@, 44u8)[1]);
    }
    let size: usize = match rule {
        SizeRule::Legacy => 0,
        SizeRule::Split => {
            proof {
                assert(info@[2]@ == split_fields(f@, 44u8)[2]);
            }
            match parse_unsigned(info[2].as_slice(), usize::MAX as u64) {
                None => {
                    return None;
                },
                Some(n) => n as usize,
            }
        },
    };
    let name = utf8_string(info[0].clone());
    let hash = utf8_string(info[1].clone());
    Some(PackFileMeta { hash, name, size, writed: true })
}

/// The packs of one bucket line, or `None` when an entry does not read.
fn read_bucket_line(rule: SizeRule, line: &Vec<u8>) -> (r: Option<Vec<PackFileMeta>>)
    requires
        valid_utf8(line@),
    ensures
        match line_entries(rule, split_fields(line@, 32u8)) {
            None => r is None,
            Some(es) => r matches Some(v) && v@.map_values(
                |m: PackFileMeta| (m.name@, m.hash@, m.size as nat),
            ) == es && forall|i: int| 0 <= i < v@.len() ==> (#[trigger] v@[i]).writed,
        },
{
    let fs = split_bytes(line.as_slice(), 32);
    let ghost fv = fs@.map_values(|v: Vec<u8>| v@);
    proof {
        lemma_split_fields_utf8(line@, 32u8);
    }
    let mut out: Vec<PackFileMeta> = Vec::new();
    let mut i: usize = 0;
    proof {
        assert(fv.take(0) =~= Seq::<Seq<u8>>::empty());
    }
    while i < fs.len()
        invariant
            fv == fs@.map_values(|v: Vec<u8>| v@),
            fv == split_fields(line@, 32u8),
            forall|k: int| 0 <= k < fv.len() ==> valid_utf8(#[trigger] fv[k]),
            i <= fs@.len(),
            line_entries(rule, fv.take(i as int)) == Some(
                out@.map_values(|m: PackFileMeta| (m.name@, m.hash@, m.size as nat)),
            ),
            forall|k: int| 0 <= k < out@.len() ==> (#[trigger] out@[k]).writed,
        decreases fs@.len() - i,
    {
        let f = &fs[i];
        proof {
            assert(fv[i as int] == f@);
            assert(fv.take(i + 1).drop_last() =~= fv.take(i as int));
            assert(fv.take(i + 1).last() == f@);
        }
        if has_byte(f, 44) {
            match read_entry(rule, f) {
                None => {
                    proof {
                        assert(line_entries(rule, fv.take(i + 1)) is None);
                        lemma_line_entries_none(rule, fv, i as int + 1);
                        assert(fv.take(fv.len() as int) =~= fv);
                    }
                    return None;
                },
                Some(m) => {
                    let ghost o0 = out@.map_values(
                        |m: PackFileMeta| (m.name@, m.hash@, m.size as nat),
                    );
                    out.push(m);
                    proof {
                        assert(out@.map_values(|m: PackFileMeta| (m.name@, m.hash@, m.size as nat))
                            =~= o0.push((m.name@, m.hash@, m.size as nat)));
                    }
                },
            }
        }
        i = i + 1;
    }
    proof {
        assert(fv.take(i as int) =~= fv);
    }
    Some(out)
}

/// A prefix that does not read keeps the whole line from reading.
proof fn lemma_line_entries_none(rule: SizeRule, fs: Seq<Seq<u8>>, k: int)
    requires
        0 <= k <= fs.len(),
        line_entries(rule, fs.take(k)) is None,
    ensures
        line_entries(rule, fs) is None,
    decreases fs.len() - k,
{
    if k < fs.len() {
        assert(fs.take(k + 1).drop_last() =~= fs.take(k));
        lemma_line_entries_none(rule, fs, k + 1);
    } else {
        assert(fs.take(k) =~= fs);
    }
}

/// The meta of the scope whose meta file at `path` holds `file`, written with
/// the layout of `rule`; `None` when the file does not exist.
pub fn read_scope_meta(rule: SizeRule, path: &String, file: Option<Vec<u8>>) -> (r: Result<
    Option<ScopeMeta>,
    StorageError,
>)
    ensures
        file is None ==> r matches Ok(None),
        file matches Some(d) ==> match spec_read_scope_meta(rule, d@) {
            Ok((b, mx, lm, entries)) => r matches Ok(Some(m)) && m.path@ == path@ && m.buckets == b
                && m.max_pack_size == mx && m.last_modified == lm && meta_records(m.packs@)
                == entries && forall|i: int, j: int|
                0 <= i < m.packs@.len() && 0 <= j < m.packs@[i]@.len() ==> (#[trigger] m.packs@[i]@[j]).writed,
            Err(MetaFault::NotUtf8) => r matches Err(StorageError::Fs(e)) && e.file@ == path@
                && e.opt == PackFsErrorOpt::Read && e.inner@ == invalid_utf8_message(),
            Err(MetaFault::BadNumber(f)) => r matches Err(StorageError::MetaParse(g)) && g == f,
            Err(MetaFault::TooFewOptions) => r matches Err(StorageError::MetaBroken),
            Err(MetaFault::BadPackInfo) => r matches Err(StorageError::PackInfo),
        },
{
    let ghost fg = file;
    let data = match file {
        None => {
            return Ok(None);
        },
        Some(d) => d,
    };
    let ghost d = data@;
    let mut reader = MemoryFileReader::new(data);
    let l1 = match reader.line() {
        Ok(l) => l,
        Err(_) => {
            return Err(invalid_utf8_error(path));
        },
    };
    let ghost p1 = reader.pos as int;
    let opts = match parse_numbers_exec(&l1, u64::MAX) {
        Ok(v) => v,
        Err(f) => {
            return Err(StorageError::MetaParse(f));
        },
    };
    if opts.len() < 3 {
        return Err(StorageError::MetaBroken);
    }
    let buckets = opts[0] as usize;
    let max_pack_size = opts[1] as usize;
    let last_modified = opts[2];
    let ghost n = buckets as nat;
    let mut packs: Vec<Vec<PackFileMeta>> = Vec::new();
    let mut b: usize = 0;
    while b < buckets
        invariant
            fg == file,
            fg matches Some(dd) && dd@ == d,
            spec_read_line(d, 0) == Some((l1@, p1)),
            parse_numbers(l1@, u64::MAX as nat) matches Some(ns) && ns.len() >= 3 && (
            ns[0] as u64) as usize == buckets && ((ns[1] as u64) as usize) == max_pack_size
                && ns[2] == last_modified,
            reader.data@ == d,
            b <= buckets,
            n == buckets as nat,
            packs@.len() == b,
            read_buckets(rule, d, p1, n) == (match read_buckets(
                rule,
                d,
                reader.pos as int,
                (n - b) as nat,
            ) {
                Err(e) => Err(e),
                Ok((r, q)) => Ok((meta_records(packs@) + r, q)),
            }),
            forall|i: int, j: int|
                0 <= i < packs@.len() && 0 <= j < packs@[i]@.len() ==> (#[trigger] packs@[i]@[j]).writed,
        decreases buckets - b,
    {
        let ghost pos_b = reader.pos as int;
        let line = match reader.line() {
            Ok(l) => l,
            Err(_) => {
                proof {
                    assert(spec_read_line(d, pos_b) is None);
                    assert(read_buckets(rule, d, pos_b, (n - b) as nat) is Err);
                }
                return Err(invalid_utf8_error(path));
            },
        };
        proof {
            if pos_b < d.len() {
                crate::reader::lemma_line_end_bounds(d, pos_b);
                lemma_pop_char_valid(d.subrange(pos_b, crate::reader::line_end(d, pos_b)));
            }
        }
        let metas = match read_bucket_line(rule, &line) {
            Some(v) => v,
            None => {
                return Err(StorageError::PackInfo);
            },
        };
        let ghost m0 = meta_records(packs@);
        let ghost es = metas@.map_values(|m: PackFileMeta| (m.name@, m.hash@, m.size as nat));
        packs.push(metas);
        proof {
            assert(meta_records(packs@) =~= m0.push(es));
            match read_buckets(rule, d, reader.pos as int, (n - b - 1) as nat) {
                Err(_) => {},
                Ok((r, q)) => {
                    assert(m0 + (seq![es] + r) =~= m0.push(es) + r);
                },
            }
        }
        b = b + 1;
    }
    proof {
        assert(meta_records(packs@) + Seq::<Seq<(Seq<char>, Seq<char>, nat)>>::empty()
            =~= meta_records(packs@));
    }
    Ok(Some(ScopeMeta { path: path.clone(), buckets, max_pack_size, last_modified, packs }))
}

} // verus!
