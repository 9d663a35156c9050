use vstd::prelude::*;
use vstd::utf8::*;

use crate::error::{StorageError, PackFsErrorOpt, invalid_utf8_error, eof_error, invalid_utf8_message, eof_message};
use crate::fields::{split_fields, join_fields, split_bytes, join_bytes, lemma_split_join, lemma_decimal_no_sep, lemma_split_len};
use crate::model::byte_seqs;
use crate::reader::{MemoryFileReader, spec_read_line, spec_read_bytes, line_end, pop_char, lemma_line_end_bounds};
use crate::text::{
    spec_decimal, decimal_bytes, parse_unsigned, spec_parse_unsigned, lemma_parse_decimal,
    lemma_decimal_ascii, all_ascii, is_digit, lemma_ascii_valid_decode,
};

verus! {

/// The lengths of byte strings in decimal, joined by spaces.
pub open spec fn lens_line(v: Seq<Seq<u8>>) -> Seq<u8> {
    join_fields(v.map_values(|x: Seq<u8>| spec_decimal(x.len())), 32u8)
}

/// The bytes of a pack file: a line with the lengths of the keys, a line with
/// the lengths of the values, then the keys and the values back to back.
pub open spec fn pack_file(keys: Seq<Seq<u8>>, contents: Seq<Seq<u8>>) -> Seq<u8> {
    lens_line(keys) + seq![10u8] + lens_line(contents) + seq![10u8] + keys.flatten()
        + contents.flatten()
}

/// The numbers of a line of lengths, or `None` when a field is not one.
pub open spec fn parse_lens(line: Seq<u8>) -> Option<Seq<nat>> {
    let fs = split_fields(line, 32u8);
    if forall|i: int| 0 <= i < fs.len() ==> (#[trigger] spec_parse_unsigned(fs[i], usize::MAX as nat)) is Some {
        Some(Seq::new(fs.len(), |i: int| spec_parse_unsigned(fs[i], usize::MAX as nat)->Some_0))
    } else {
        None
    }
}

/// Reads byte strings of the given lengths one after the other.
pub open spec fn read_seq(data: Seq<u8>, pos: int, lens: Seq<nat>) -> Option<(Seq<Seq<u8>>, int)>
    decreases lens.len(),
{
    if lens.len() == 0 {
        Some((Seq::empty(), pos))
    } else {
        match spec_read_bytes(data, pos, lens[0] as int) {
            None => None,
            Some((b, p)) => match read_seq(data, p, lens.drop_first()) {
                None => None,
                Some((r, q)) => Some((seq![b] + r, q)),
            },
        }
    }
}

pub open spec fn sum_nats(s: Seq<nat>) -> nat
    decreases s.len(),
{
    if s.len() == 0 {
        0
    } else {
        sum_nats(s.drop_last()) + s.last()
    }
}

/// Reading the keys of a pack file does not stop on a broken number: the
/// first line, when it reads, holds lengths.
pub open spec fn keys_header_ok(data: Seq<u8>) -> bool {
    match spec_read_line(data, 0) {
        None => true,
        Some((l, _)) => parse_lens(l) is Some,
    }
}

/// Reading the values of a pack file does not stop on a broken number or an
/// overflowing sum: both first lines, when they read, hold lengths, and the
/// keys' lengths add up within `i64` and `usize`.
pub open spec fn contents_header_ok(data: Seq<u8>) -> bool {
    match spec_read_line(data, 0) {
        None => true,
        Some((l1, p1)) => {
            &&& parse_lens(l1) is Some
            &&& sum_nats(parse_lens(l1)->Some_0) <= i64::MAX
            &&& sum_nats(parse_lens(l1)->Some_0) <= usize::MAX
            &&& match spec_read_line(data, p1) {
                None => true,
                Some((l2, _)) => parse_lens(l2) is Some,
            }
        },
    }
}

/// What reading the keys of a pack file gives: the keys, or the message of the
/// read error.
pub open spec fn spec_read_pack_keys(data: Seq<u8>) -> Result<Seq<Seq<u8>>, Seq<char>> {
    match spec_read_line(data, 0) {
        None => Err(invalid_utf8_message()),
        Some((l1, p1)) => match spec_read_line(data, p1) {
            None => Err(invalid_utf8_message()),
            Some((_, p2)) => match read_seq(data, p2, parse_lens(l1)->Some_0) {
                None => Err(eof_message()),
                Some((ks, _)) => Ok(ks),
            },
        },
    }
}

/// What reading the values of a pack file gives: the values, or the message of
/// the read error.
pub open spec fn spec_read_pack_contents(data: Seq<u8>) -> Result<Seq<Seq<u8>>, Seq<char>> {
    match spec_read_line(data, 0) {
        None => Err(invalid_utf8_message()),
        Some((l1, p1)) => match spec_read_line(data, p1) {
            None => Err(invalid_utf8_message()),
            Some((l2, p2)) => {
                let skipped = p2 + sum_nats(parse_lens(l1)->Some_0);
                let start = if skipped <= usize::MAX {
                    skipped
                } else {
                    usize::MAX as int
                };
                match read_seq(data, start, parse_lens(l2)->Some_0) {
                    None => Err(eof_message()),
                    Some((cs, _)) => Ok(cs),
                }
            },
        },
    }
}

fn lens_line_bytes(v: &Vec<Vec<u8>>) -> (r: Vec<u8>)
    ensures
        r@ == lens_line(byte_seqs(v@)),
{
    let mut fs: Vec<Vec<u8>> = Vec::new();
    let mut i: usize = 0;
    while i < v.len()
        invariant
            i <= v@.len(),
            fs@.map_values(|x: Vec<u8>| x@) == byte_seqs(v@).take(i as int).map_values(
                |x: Seq<u8>| spec_decimal(x.len()),
            ),
        decreases v@.len() - i,
    {
        let d = decimal_bytes(v[i].len());
        let ghost f0 = fs@.map_values(|x: Vec<u8>| x@);
        fs.push(d);
        proof {
            assert(fs@.map_values(|x: Vec<u8>| x@) =~= f0.push(d@));
            assert(byte_seqs(v@).take(i + 1) =~= byte_seqs(v@).take(i as int).push(v@[i as int]@));
            assert(byte_seqs(v@).take(i + 1).map_values(|x: Seq<u8>| spec_decimal(x.len())) =~= byte_seqs(v@).take(i as int).map_values(|x: Seq<u8>| spec_decimal(x.len())).push(spec_decimal(v@[i as int]@.len())));
        }
        i = i + 1;
    }
    proof {
        assert(byte_seqs(v@).take(i as int) =~= byte_seqs(v@));
    }
    join_bytes(&fs, 32)
}

fn append_all(out: &mut Vec<u8>, v: &Vec<Vec<u8>>)
    ensures
        final(out)@ == old(out)@ + byte_seqs(v@).flatten(),
{
    let ghost o0 = out@;
    let mut i: usize = 0;
    while i < v.len()
        invariant
            i <= v@.len(),
            out@ == o0 + byte_seqs(v@).take(i as int).flatten(),
        decreases v@.len() - i,
    {
        let ghost o1 = out@;
        let mut j: usize = 0;
        while j < v[i].len()
            invariant
                i < v@.len(),
                j <= v@[i as int]@.len(),
                out@ == o1 + v@[i as int]@.take(j as int),
            decreases v@[i as int]@.len() - j,
        {
            out.push(v[i][j]);
            proof {
                assert(v@[i as int]@.take(j + 1) =~= v@[i as int]@.take(j as int).push(v@[i as int]@[j as int]));
            }
            j = j + 1;
        }
        proof {
            assert(v@[i as int]@.take(j as int) =~= v@[i as int]@);
            let t = byte_seqs(v@).take(i + 1);
            assert(t =~= byte_seqs(v@).take(i as int).push(v@[i as int]@));
            byte_seqs(v@).take(i as int).lemma_flatten_push(v@[i as int]@);
        }
        i = i + 1;
    }
    proof {
        assert(byte_seqs(v@).take(i as int) =~= byte_seqs(v@));
    }
}

/// The bytes of the pack file that holds `keys` and `contents`.
pub fn pack_file_bytes(keys: &Vec<Vec<u8>>, contents: &Vec<Vec<u8>>) -> (r: Vec<u8>)
    ensures
        r@ == pack_file(byte_seqs(keys@), byte_seqs(contents@)),
{
    let mut out = lens_line_bytes(keys);
    out.push(10);
    let mut second = lens_line_bytes(contents);
    out.append(&mut second);
    out.push(10);
    append_all(&mut out, keys);
    append_all(&mut out, contents);
    proof {
        assert(out@ =~= pack_file(byte_seqs(keys@), byte_seqs(contents@)));
    }
    out
}

fn parse_lens_exec(line: &Vec<u8>) -> (r: Option<Vec<usize>>)
    ensures
        match parse_lens(line@) {
            Some(ns) => r matches Some(v) && v@.len() == ns.len() && forall|i: int|
                0 <= i < ns.len() ==> #[trigger] v@[i] == ns[i],
            None => r is None,
        },
{
    let fs = split_bytes(line.as_slice(), 32);
    let ghost fv = fs@.map_values(|v: Vec<u8>| v@);
    let mut out: Vec<usize> = Vec::new();
    let mut i: usize = 0;
    while i < fs.len()
        invariant
            fv == fs@.map_values(|v: Vec<u8>| v@),
            fv == split_fields(line@, 32u8),
            i <= fs@.len(),
            out@.len() == i,
            forall|k: int| 0 <= k < i ==> (#[trigger] spec_parse_unsigned(fv[k], usize::MAX as nat)) == Some(out@[k] as nat),
        decreases fs@.len() - i,
    {
        match parse_unsigned(fs[i].as_slice(), usize::MAX as u64) {
            Some(n) => {
                out.push(n as usize);
            },
            None => {
                proof {
                    assert(spec_parse_unsigned(fv[i as int], usize::MAX as nat) is None);
                }
                return None;
            },
        }
        i = i + 1;
    }
    proof {
        assert(forall|k: int| 0 <= k < fv.len() ==> (#[trigger] spec_parse_unsigned(fv[k], usize::MAX as nat)) is Some);
    }
    Some(out)
}

fn read_seq_exec(reader: &mut MemoryFileReader, lens: &Vec<usize>, path: &String) -> (r: Result<Vec<Vec<u8>>, StorageError>)
    ensures
        final(reader).data == old(reader).data,
        match read_seq(old(reader).data@, old(reader).pos as int, lens@.map_values(|n: usize| n as nat)) {
            Some((vs, p)) => r matches Ok(v) && byte_seqs(v@) == vs,
            None => r matches Err(StorageError::Fs(e)) && e.file@ == path@ && e.opt == PackFsErrorOpt::Read && e.inner@ == eof_message(),
        },
{
    let ghost data = reader.data@;
    let ghost ln = lens@.map_values(|n: usize| n as nat);
    let ghost p0 = reader.pos as int;
    let mut out: Vec<Vec<u8>> = Vec::new();
    let mut i: usize = 0;
    proof {
        assert(ln.skip(0) =~= ln);
        assert(byte_seqs(out@) =~= Seq::<Seq<u8>>::empty());
        assert(Seq::<Seq<u8>>::empty() + Seq::<Seq<u8>>::empty() =~= Seq::<Seq<u8>>::empty());
    }
    while i < lens.len()
        invariant
            reader.data == old(reader).data,
            reader.data@ == data,
            data == old(reader).data@,
            p0 == old(reader).pos as int,
            ln == lens@.map_values(|n: usize| n as nat),
            i <= lens@.len(),
            read_seq(data, p0, ln) == (match read_seq(data, reader.pos as int, ln.skip(i as int)) {
                None => None,
                Some((r, q)) => Some((byte_seqs(out@) + r, q)),
            }),
        decreases lens@.len() - i,
    {
        let ghost pos_i = reader.pos as int;
        proof {
            let rest = ln.skip(i as int);
            assert(rest[0] == lens@[i as int] as nat);
            assert(rest.drop_first() =~= ln.skip(i + 1));
        }
        match reader.bytes(lens[i]) {
            Ok(b) => {
                let ghost o0 = byte_seqs(out@);
                out.push(b);
                proof {
                    assert(byte_seqs(out@) =~= o0.push(b@));
                    match read_seq(data, reader.pos as int, ln.skip(i + 1)) {
                        None => {},
                        Some((r, q)) => {
                            assert(o0 + (seq![b@] + r) =~= o0.push(b@) + r);
                        },
                    }
                }
            },
            Err(_) => {
                proof {
                    let rest = ln.skip(i as int);
                    assert(rest.len() > 0);
                    assert(spec_read_bytes(data, pos_i, rest[0] as int) is None);
                    assert(read_seq(data, pos_i, rest) is None);
                }
                return Err(eof_error(path));
            },
        }
        i = i + 1;
    }
    proof {
        assert(ln.skip(i as int) =~= Seq::<nat>::empty());
        assert(byte_seqs(out@) + Seq::<Seq<u8>>::empty() =~= byte_seqs(out@));
    }
    Ok(out)
}

proof fn lemma_sum_prefix(s: Seq<nat>, n: int)
    requires
        0 <= n <= s.len(),
    ensures
        sum_nats(s.take(n)) <= sum_nats(s),
    decreases s.len() - n,
{
    if n < s.len() {
        lemma_sum_prefix(s, n + 1);
        assert(s.take(n + 1).drop_last() =~= s.take(n));
    } else {
        assert(s.take(n) =~= s);
    }
}

fn sum_lens(lens: &Vec<usize>) -> (r: usize)
    requires
        sum_nats(lens@.map_values(|n: usize| n as nat)) <= usize::MAX,
    ensures
        r == sum_nats(lens@.map_values(|n: usize| n as nat)),
{
    let ghost ln = lens@.map_values(|n: usize| n as nat);
    let mut acc: usize = 0;
    let mut i: usize = 0;
    while i < lens.len()
        invariant
            ln == lens@.map_values(|n: usize| n as nat),
            sum_nats(ln) <= usize::MAX,
            i <= lens@.len(),
            acc == sum_nats(ln.take(i as int)),
        decreases lens@.len() - i,
    {
        proof {
            assert(ln.take(i + 1).drop_last() =~= ln.take(i as int));
            assert(ln.take(i + 1).last() == lens@[i as int] as nat);
            lemma_sum_prefix(ln, i + 1);
        }
        acc = acc + lens[i];
        i = i + 1;
    }
    proof {
        assert(ln.take(i as int) =~= ln);
    }
    acc
}

/// Whether reading the keys of the pack file `data` gets past its header.
pub fn keys_header_valid(data: &Vec<u8>) -> (r: bool)
    ensures
        r == keys_header_ok(data@),
{
    let mut reader = MemoryFileReader::new(crate::model::clone_bytes(data));
    match reader.line() {
        Err(_) => true,
        Ok(l) => parse_lens_exec(&l).is_some(),
    }
}

/// Whether reading the values of the pack file `data` gets past its header.
pub fn contents_header_valid(data: &Vec<u8>) -> (r: bool)
    ensures
        r == contents_header_ok(data@),
{
    let mut reader = MemoryFileReader::new(crate::model::clone_bytes(data));
    let l1 = match reader.line() {
        Err(_) => {
            return true;
        },
        Ok(l) => l,
    };
    let lens = match parse_lens_exec(&l1) {
        None => {
            return false;
        },
        Some(v) => v,
    };
    let ghost ln = lens@.map_values(|n: usize| n as nat);
    let ghost p1 = reader.pos as int;
    proof {
        assert(ln =~= parse_lens(l1@)->Some_0);
    }
    let mut acc: u128 = 0;
    let mut i: usize = 0;
    while i < lens.len()
        invariant
            ln == lens@.map_values(|n: usize| n as nat),
            parse_lens(l1@) == Some(ln),
            spec_read_line(data@, 0) == Some((l1@, p1)),
            reader.data@ == data@,
            reader.pos as int == p1,
            i <= lens@.len(),
            acc == sum_nats(ln.take(i as int)),
            acc <= i64::MAX,
        decreases lens@.len() - i,
    {
        proof {
            assert(ln.take(i + 1).drop_last() =~= ln.take(i as int));
            assert(ln.take(i + 1).last() == lens@[i as int] as nat);
        }
        acc = acc + lens[i] as u128;
        proof {
            assert(acc == sum_nats(ln.take(i + 1)));
        }
        if acc > i64::MAX as u128 {
            proof {
                lemma_sum_prefix(ln, i + 1);
            }
            return false;
        }
        i = i + 1;
    }
    proof {
        assert(ln.take(i as int) =~= ln);
    }
    if acc > usize::MAX as u128 {
        return false;
    }
    match reader.line() {
        Err(_) => true,
        Ok(l2) => parse_lens_exec(&l2).is_some(),
    }
}

/// The keys of the pack file at `path`, whose bytes are `file`; `None` when
/// the file does not exist.
pub fn read_pack_keys(path: &String, file: Option<Vec<u8>>) -> (r: Result<Option<Vec<Vec<u8>>>, StorageError>)
    requires
        file matches Some(d) ==> keys_header_ok(d@),
    ensures
        file is None ==> r matches Ok(None),
        file matches Some(d) ==> match spec_read_pack_keys(d@) {
            Ok(ks) => r matches Ok(Some(v)) && byte_seqs(v@) == ks,
            Err(m) => r matches Err(StorageError::Fs(e)) && e.file@ == path@ && e.opt
                == PackFsErrorOpt::Read && e.inner@ == m,
        },
{
    let data = match file {
        None => {
            return Ok(None);
        },
        Some(d) => d,
    };
    let ghost d = data@;
    let mut reader = MemoryFileReader::new(data);
    let l1 = match reader.line() {
        Ok(l) => l,
        Err(_) => {
            return Err(invalid_utf8_error(path));
        },
    };
    let lens = match parse_lens_exec(&l1) {
        Some(v) => v,
        None => {
            assert(false);
            return Ok(None);
        },
    };
    match reader.line() {
        Ok(_) => {},
        Err(_) => {
            return Err(invalid_utf8_error(path));
        },
    }
    proof {
        let ns = parse_lens(l1@)->Some_0;
        assert(lens@.map_values(|n: usize| n as nat) =~= ns);
    }
    match read_seq_exec(&mut reader, &lens, path) {
        Ok(ks) => Ok(Some(ks)),
        Err(e) => Err(e),
    }
}

/// The values of the pack file at `path`, whose bytes are `file`; `None` when
/// the file does not exist.
pub fn read_pack_contents(path: &String, file: Option<Vec<u8>>) -> (r: Result<Option<Vec<Vec<u8>>>, StorageError>)
    requires
        file matches Some(d) ==> contents_header_ok(d@),
    ensures
        file is None ==> r matches Ok(None),
        file matches Some(d) ==> match spec_read_pack_contents(d@) {
            Ok(cs) => r matches Ok(Some(v)) && byte_seqs(v@) == cs,
            Err(m) => r matches Err(StorageError::Fs(e)) && e.file@ == path@ && e.opt
                == PackFsErrorOpt::Read && e.inner@ == m,
        },
{
    let data = match file {
        None => {
            return Ok(None);
        },
        Some(d) => d,
    };
    let ghost d = data@;
    let mut reader = MemoryFileReader::new(data);
    let l1 = match reader.line() {
        Ok(l) => l,
        Err(_) => {
            return Err(invalid_utf8_error(path));
        },
    };
    let ghost p1 = reader.pos as int;
    let lens1 = match parse_lens_exec(&l1) {
        Some(v) => v,
        None => {
            assert(false);
            return Ok(None);
        },
    };
    proof {
        assert(lens1@.map_values(|n: usize| n as nat) =~= parse_lens(l1@)->Some_0);
    }
    let total = sum_lens(&lens1);
    let l2 = match reader.line() {
        Ok(l) => l,
        Err(_) => {
            return Err(invalid_utf8_error(path));
        },
    };
    let lens2 = match parse_lens_exec(&l2) {
        Some(v) => v,
        None => {
            assert(false);
            return Ok(None);
        },
    };
    proof {
        assert(lens2@.map_values(|n: usize| n as nat) =~= parse_lens(l2@)->Some_0);
    }
    reader.skip(total);
    match read_seq_exec(&mut reader, &lens2, path) {
        Ok(cs) => Ok(Some(cs)),
        Err(e) => Err(e),
    }
}

/// A byte that is a digit or a space.
pub open spec fn digit_or_space(b: u8) -> bool {
    is_digit(b) || b == 32u8
}

proof fn lemma_join_digits(fs: Seq<Seq<u8>>)
    requires
        forall|i: int, j: int| 0 <= i < fs.len() && 0 <= j < fs[i].len() ==> is_digit(#[trigger] fs[i][j]),
    ensures
        forall|k: int| 0 <= k < join_fields(fs, 32u8).len() ==> digit_or_space(#[trigger] join_fields(fs, 32u8)[k]),
    decreases fs.len(),
{
    if fs.len() > 1 {
        let f1 = fs.drop_last();
        assert forall|i: int, j: int| 0 <= i < f1.len() && 0 <= j < f1[i].len() implies is_digit(#[trigger] f1[i][j]) by {
            assert(f1[i] == fs[i]);
        }
        lemma_join_digits(f1);
        let j1 = join_fields(f1, 32u8);
        let l = fs.last();
        assert forall|k: int| 0 <= k < join_fields(fs, 32u8).len() implies digit_or_space(#[trigger] join_fields(fs, 32u8)[k]) by {
            assert(join_fields(fs, 32u8) == j1 + seq![32u8] + l);
            if k < j1.len() {
                assert(join_fields(fs, 32u8)[k] == j1[k]);
            } else if k == j1.len() {
            } else {
                assert(join_fields(fs, 32u8)[k] == l[k - j1.len() - 1]);
                assert(fs[fs.len() - 1] == l);
            }
        }
    } else if fs.len() == 1 {
        assert forall|k: int| 0 <= k < join_fields(fs, 32u8).len() implies digit_or_space(#[trigger] join_fields(fs, 32u8)[k]) by {
            assert(join_fields(fs, 32u8) == fs[0]);
        }
    }
}

/// A line of lengths is ASCII without newline, and parses back to the lengths.
pub proof fn lemma_lens_line(v: Seq<Seq<u8>>)
    requires
        forall|i: int| 0 <= i < v.len() ==> (#[trigger] v[i]).len() <= usize::MAX,
    ensures
        all_ascii(lens_line(v)),
        !lens_line(v).contains(10u8),
        v.len() >= 1 ==> parse_lens(lens_line(v)) == Some(v.map_values(|x: Seq<u8>| x.len())),
{
    let fs = v.map_values(|x: Seq<u8>| spec_decimal(x.len()));
    assert forall|i: int, j: int| 0 <= i < fs.len() && 0 <= j < fs[i].len() implies is_digit(#[trigger] fs[i][j]) by {
        lemma_decimal_ascii(v[i].len());
    }
    lemma_join_digits(fs);
    let line = lens_line(v);
    assert forall|k: int| 0 <= k < line.len() implies #[trigger] line[k] < 128 by {
        assert(digit_or_space(line[k]));
    }
    if line.contains(10u8) {
        let k = choose|k: int| 0 <= k < line.len() && line[k] == 10u8;
        assert(digit_or_space(line[k]));
    }
    if v.len() >= 1 {
        assert forall|i: int| 0 <= i < fs.len() implies !(#[trigger] fs[i]).contains(32u8) by {
            lemma_decimal_no_sep(v[i].len());
        }
        lemma_split_join(fs, 32u8);
        assert forall|i: int| 0 <= i < fs.len() implies (#[trigger] spec_parse_unsigned(fs[i], usize::MAX as nat)) == Some(v[i].len()) by {
            lemma_parse_decimal(v[i].len(), usize::MAX as nat);
        }
        assert(parse_lens(line) =~= Some(v.map_values(|x: Seq<u8>| x.len())));
    }
}

proof fn lemma_line_end_at(data: Seq<u8>, p: int, q: int)
    requires
        0 <= p <= q < data.len(),
        data[q] == 10u8,
        forall|i: int| p <= i < q ==> data[i] != 10u8,
    ensures
        line_end(data, p) == q + 1,
    decreases q - p,
{
    if p < q {
        lemma_line_end_at(data, p + 1, q);
    }
}

/// Reading a line of ASCII bytes that ends in a newline gives the bytes.
pub proof fn lemma_read_ascii_line(data: Seq<u8>, p: int, a: Seq<u8>)
    requires
        0 <= p,
        p + a.len() < data.len(),
        data.subrange(p, p + a.len()) == a,
        data[p + a.len()] == 10u8,
        all_ascii(a),
        !a.contains(10u8),
    ensures
        spec_read_line(data, p) == Some((a, p + a.len() + 1)),
{
    assert forall|i: int| p <= i < p + a.len() implies data[i] != 10u8 by {
        assert(a[i - p] == data[i]);
        if data[i] == 10u8 {
            assert(a.contains(10u8));
        }
    }
    lemma_line_end_at(data, p, p + a.len());
    let c = data.subrange(p, p + a.len() + 1);
    assert(c =~= a.push(10u8));
    assert(all_ascii(c)) by {
        assert forall|i: int| 0 <= i < c.len() implies #[trigger] c[i] < 128 by {
            if i < a.len() {
                assert(c[i] == a[i]);
            }
        }
    }
    lemma_ascii_valid_decode(c);
    assert(!is_continuation_byte(c[c.len() - 1]));
    assert(length_of_last_scalar(c) == 1);
    assert(pop_char(c) =~= a);
}

proof fn lemma_flatten_len(ks: Seq<Seq<u8>>)
    ensures
        sum_nats(ks.map_values(|x: Seq<u8>| x.len())) == ks.flatten().len(),
    decreases ks.len(),
{
    if ks.len() > 0 {
        let k1 = ks.drop_last();
        lemma_flatten_len(k1);
        assert(ks.map_values(|x: Seq<u8>| x.len()).drop_last() =~= k1.map_values(|x: Seq<u8>| x.len()));
        assert(k1.push(ks.last()) =~= ks);
        k1.lemma_flatten_push(ks.last());
    }
}

/// Reading byte strings of the lengths of `ks` where `ks` lies gives `ks`.
pub proof fn lemma_read_seq_flatten(data: Seq<u8>, p: int, ks: Seq<Seq<u8>>)
    requires
        0 <= p,
        p + ks.flatten().len() <= data.len(),
        data.subrange(p, p + ks.flatten().len()) == ks.flatten(),
    ensures
        read_seq(data, p, ks.map_values(|x: Seq<u8>| x.len())) == Some((ks, p + ks.flatten().len())),
    decreases ks.len(),
{
    let ln = ks.map_values(|x: Seq<u8>| x.len());
    if ks.len() == 0 {
        assert(ks =~= Seq::<Seq<u8>>::empty());
    } else {
        let k0 = ks[0];
        let rest = ks.drop_first();
        assert(ks.flatten() == k0 + rest.flatten());
        assert(data.subrange(p, p + k0.len()) =~= k0) by {
            assert forall|i: int| 0 <= i < k0.len() implies data.subrange(p, p + k0.len())[i] == k0[i] by {
                assert(data.subrange(p, p + ks.flatten().len())[i] == ks.flatten()[i]);
            }
        }
        assert(data.subrange(p + k0.len(), p + k0.len() + rest.flatten().len()) =~= rest.flatten()) by {
            assert forall|i: int| 0 <= i < rest.flatten().len() implies data.subrange(p + k0.len(), p + k0.len() + rest.flatten().len())[i] == rest.flatten()[i] by {
                assert(data.subrange(p, p + ks.flatten().len())[k0.len() + i] == ks.flatten()[k0.len() + i]);
                assert(ks.flatten()[k0.len() + i] == rest.flatten()[i]);
                assert(data.subrange(p, p + ks.flatten().len())[k0.len() + i] == data[p + k0.len() + i]);
            }
        }
        lemma_read_seq_flatten(data, p + k0.len(), rest);
        assert(ln[0] == k0.len());
        assert(ln.drop_first() =~= rest.map_values(|x: Seq<u8>| x.len()));
        if k0.len() == 0 {
            assert(k0 =~= Seq::<u8>::empty());
        }
        assert(seq![k0] + rest =~= ks);
    }
}

/// Reading a pack file back gives the keys and the values it was written
/// with, when it holds at least one of each.
pub proof fn lemma_pack_file_roundtrip(keys: Seq<Seq<u8>>, contents: Seq<Seq<u8>>)
    requires
        keys.len() >= 1,
        contents.len() >= 1,
        forall|i: int| 0 <= i < keys.len() ==> (#[trigger] keys[i]).len() <= usize::MAX,
        forall|i: int| 0 <= i < contents.len() ==> (#[trigger] contents[i]).len() <= usize::MAX,
        keys.flatten().len() <= i64::MAX,
        pack_file(keys, contents).len() <= usize::MAX,
    ensures
        keys_header_ok(pack_file(keys, contents)),
        spec_read_pack_keys(pack_file(keys, contents)) == Ok::<Seq<Seq<u8>>, Seq<char>>(keys),
        contents_header_ok(pack_file(keys, contents)),
        spec_read_pack_contents(pack_file(keys, contents)) == Ok::<Seq<Seq<u8>>, Seq<char>>(contents),
{
    let a = lens_line(keys);
    let b = lens_line(contents);
    let kf = keys.flatten();
    let cf = contents.flatten();
    let d = pack_file(keys, contents);
    lemma_lens_line(keys);
    lemma_lens_line(contents);
    assert(d == a + seq![10u8] + b + seq![10u8] + kf + cf);
    assert(d.subrange(0, a.len() as int) =~= a);
    assert(d[a.len() as int] == 10u8);
    lemma_read_ascii_line(d, 0, a);
    let p1: int = a.len() as int + 1;
    assert(d.subrange(p1, p1 + b.len()) =~= b);
    assert(d[p1 + b.len()] == 10u8);
    lemma_read_ascii_line(d, p1, b);
    let p2: int = p1 + b.len() + 1;
    assert(d.subrange(p2, p2 + kf.len()) =~= kf);
    lemma_read_seq_flatten(d, p2, keys);
    lemma_flatten_len(keys);
    assert(d.subrange(p2 + kf.len(), p2 + kf.len() + cf.len()) =~= cf);
    lemma_read_seq_flatten(d, p2 + kf.len(), contents);
}

} // verus!
