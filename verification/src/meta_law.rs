use vstd::prelude::*;
use vstd::utf8::*;

use crate::fields::{join_fields, split_fields, lemma_split_join, lemma_decimal_no_sep};
use crate::meta::{PackFileMeta, ScopeMeta};
use crate::meta_file::{
    entry_bytes, bucket_line, bucket_lines, meta_header, meta_file, meta_entry, line_entries,
    read_buckets, parse_numbers, spec_read_scope_meta, MetaFault,
};
use crate::pack_file::lemma_read_ascii_line;
use crate::packing::SizeRule;
use crate::reader::{spec_read_line, line_end, pop_char};
use crate::text::{
    spec_decimal, lemma_decimal_ascii, lemma_parse_decimal, all_ascii, lemma_ascii_valid_decode,
    spec_parse_unsigned,
};

verus! {

/// Text that the meta file can carry as a name or a hash: no space, comma or
/// newline.
pub open spec fn plain_text(s: Seq<char>) -> bool {
    !s.contains(' ') && !s.contains(',') && !s.contains('\n')
}

proof fn lemma_scalar_ascii_byte(c: char, b: u8)
    requires
        b < 128,
        c != (b as char),
    ensures
        !encode_scalar(c as u32).contains(b),
{
    broadcast use char_is_scalar;

    let s = c as u32;
    assert(is_scalar(s));
    let e = encode_scalar(s);
    if e.contains(b) {
        let i = choose|i: int| 0 <= i < e.len() && e[i] == b;
        if has_width_1_encoding(s) {
            assert(e[0] == leading_byte_width_1(s));
            assert((s & 0x7F) as u8 == b ==> s == b as u32) by (bit_vector)
                requires
                    s <= 0x7F,
            ;
            assert(c == (b as char));
        } else if has_width_2_encoding(s) {
            assert(leading_byte_width_2(s) >= 0x80) by (bit_vector);
            assert(last_continuation_byte(s) >= 0x80) by (bit_vector);
        } else if has_width_3_encoding(s) {
            assert(leading_byte_width_3(s) >= 0x80) by (bit_vector);
            assert(second_last_continuation_byte(s) >= 0x80) by (bit_vector);
            assert(last_continuation_byte(s) >= 0x80) by (bit_vector);
        } else {
            assert(leading_byte_width_4(s) >= 0x80) by (bit_vector);
            assert(third_last_continuation_byte(s) >= 0x80) by (bit_vector);
            assert(second_last_continuation_byte(s) >= 0x80) by (bit_vector);
            assert(last_continuation_byte(s) >= 0x80) by (bit_vector);
        }
    }
}

/// The UTF-8 bytes of text without an ASCII character do not hold its byte.
proof fn lemma_encode_no_byte(chars: Seq<char>, b: u8)
    requires
        b < 128,
        !chars.contains(b as char),
    ensures
        !encode_utf8(chars).contains(b),
    decreases chars.len(),
{
    if chars.len() > 0 {
        let rest = chars.drop_first();
        assert(!rest.contains(b as char)) by {
            if rest.contains(b as char) {
                let i = choose|i: int| 0 <= i < rest.len() && rest[i] == (b as char);
                assert(chars[i + 1] == rest[i]);
            }
        }
        lemma_encode_no_byte(rest, b);
        assert(chars[0] != (b as char));
        lemma_scalar_ascii_byte(chars[0], b);
        let e = encode_utf8(chars);
        let h = encode_scalar(chars[0] as u32);
        let t = encode_utf8(rest);
        assert(e == h + t);
        if e.contains(b) {
            let i = choose|i: int| 0 <= i < e.len() && e[i] == b;
            if i < h.len() {
                assert(h[i] == b);
            } else {
                assert(t[i - h.len()] == b);
            }
        }
    }
}

proof fn lemma_ascii_seq_valid(a: Seq<u8>)
    requires
        all_ascii(a),
    ensures
        valid_utf8(a),
{
    lemma_ascii_valid_decode(a);
}

proof fn lemma_concat_no_byte(x: Seq<u8>, y: Seq<u8>, b: u8)
    requires
        !x.contains(b),
        !y.contains(b),
    ensures
        !(x + y).contains(b),
{
    if (x + y).contains(b) {
        let i = choose|i: int| 0 <= i < (x + y).len() && (x + y)[i] == b;
        if i < x.len() {
            assert(x[i] == b);
        } else {
            assert(y[i - x.len()] == b);
        }
    }
}

/// What the meta file gives back of a pack: its name and hash, and under the
/// split layout its size; the first layout records no size, which reads as 0.
pub open spec fn record_of(rule: SizeRule, m: PackFileMeta) -> (Seq<char>, Seq<char>, nat) {
    (m.name@, m.hash@, if rule is Split {
        m.size as nat
    } else {
        0
    })
}

/// What the meta file gives back of the packs of each bucket.
pub open spec fn expected_records(rule: SizeRule, packs: Seq<Vec<PackFileMeta>>) -> Seq<
    Seq<(Seq<char>, Seq<char>, nat)>,
> {
    packs.map_values(|v: Vec<PackFileMeta>| v@.map_values(|m: PackFileMeta| record_of(rule, m)))
}

/// An entry of a pack with plain name and hash is valid UTF-8, holds a comma
/// but no space or newline, and reads back as the pack's record.
proof fn lemma_entry(rule: SizeRule, m: PackFileMeta)
    requires
        plain_text(m.name@),
        plain_text(m.hash@),
    ensures
        valid_utf8(entry_bytes(rule, m)),
        entry_bytes(rule, m).contains(44u8),
        !entry_bytes(rule, m).contains(32u8),
        !entry_bytes(rule, m).contains(10u8),
        meta_entry(rule, entry_bytes(rule, m)) == Some(record_of(rule, m)),
{
    broadcast use encode_utf8_valid_utf8, encode_utf8_decode_utf8, valid_utf8_concat;

    let n = encode_utf8(m.name@);
    let h = encode_utf8(m.hash@);
    let comma = seq![44u8];
    assert((32u8 as char) == ' ' && (44u8 as char) == ',' && (10u8 as char) == '\n');
    lemma_encode_no_byte(m.name@, 32u8);
    lemma_encode_no_byte(m.name@, 44u8);
    lemma_encode_no_byte(m.name@, 10u8);
    lemma_encode_no_byte(m.hash@, 32u8);
    lemma_encode_no_byte(m.hash@, 44u8);
    lemma_encode_no_byte(m.hash@, 10u8);
    assert(all_ascii(comma));
    lemma_ascii_seq_valid(comma);
    assert(!comma.contains(32u8) && !comma.contains(10u8));
    let base = n + comma + h;
    lemma_concat_no_byte(n, comma, 32u8);
    lemma_concat_no_byte(n + comma, h, 32u8);
    lemma_concat_no_byte(n, comma, 10u8);
    lemma_concat_no_byte(n + comma, h, 10u8);
    assert(base[n.len() as int] == 44u8);
    let pair = seq![n, h];
    assert(join_fields(pair, 44u8) == join_fields(pair.drop_last(), 44u8) + comma + pair.last());
    assert(join_fields(pair.drop_last(), 44u8) == n);
    assert(join_fields(pair, 44u8) =~= base);
    encode_utf8_valid_utf8(m.name@);
    encode_utf8_valid_utf8(m.hash@);
    valid_utf8_concat(n, comma);
    valid_utf8_concat(n + comma, h);
    match rule {
        SizeRule::Legacy => {
            assert(entry_bytes(rule, m) == base);
            lemma_split_join(pair, 44u8);
        },
        SizeRule::Split => {
            let d = spec_decimal(m.size as nat);
            lemma_decimal_ascii(m.size as nat);
            lemma_decimal_no_sep(m.size as nat);
            lemma_ascii_seq_valid(d);
            let triple = seq![n, h, d];
            assert(triple.drop_last() =~= pair);
            assert(join_fields(triple, 44u8) == join_fields(pair, 44u8) + comma + d);
            assert(entry_bytes(rule, m) =~= join_fields(triple, 44u8));
            valid_utf8_concat(base, comma);
            valid_utf8_concat(base + comma, d);
            lemma_concat_no_byte(base, comma, 32u8);
            lemma_concat_no_byte(base + comma, d, 32u8);
            lemma_concat_no_byte(base, comma, 10u8);
            lemma_concat_no_byte(base + comma, d, 10u8);
            assert(entry_bytes(rule, m)[n.len() as int] == 44u8);
            lemma_split_join(triple, 44u8);
            lemma_parse_decimal(m.size as nat, usize::MAX as nat);
        },
    }
}

/// Joining valid UTF-8 pieces without newline by an ASCII separator other
/// than newline gives valid UTF-8 without newline.
proof fn lemma_join_valid(fs: Seq<Seq<u8>>, sep: u8)
    requires
        sep < 128,
        sep != 10u8,
        forall|i: int| 0 <= i < fs.len() ==> valid_utf8(#[trigger] fs[i]) && !fs[i].contains(10u8),
    ensures
        valid_utf8(join_fields(fs, sep)),
        !join_fields(fs, sep).contains(10u8),
    decreases fs.len(),
{
    broadcast use valid_utf8_concat;

    if fs.len() == 0 {
        assert(valid_utf8(Seq::<u8>::empty()));
    } else if fs.len() == 1 {
        assert(valid_utf8(fs[0]) && !fs[0].contains(10u8));
    } else {
        let f1 = fs.drop_last();
        assert forall|i: int| 0 <= i < f1.len() implies valid_utf8(#[trigger] f1[i]) && !f1[i].contains(
            10u8,
        ) by {
            assert(f1[i] == fs[i]);
        }
        lemma_join_valid(f1, sep);
        let s = seq![sep];
        assert(all_ascii(s));
        lemma_ascii_seq_valid(s);
        assert(!s.contains(10u8));
        assert(valid_utf8(fs.last()) && !fs.last().contains(10u8)) by {
            assert(fs[fs.len() - 1] == fs.last());
        }
        let j1 = join_fields(f1, sep);
        valid_utf8_concat(j1, s);
        valid_utf8_concat(j1 + s, fs.last());
        lemma_concat_no_byte(j1, s, 10u8);
        lemma_concat_no_byte(j1 + s, fs.last(), 10u8);
    }
}

/// Fields that each hold a comma and read as entries read as a line of those
/// entries.
proof fn lemma_line_entries_all(rule: SizeRule, es: Seq<Seq<u8>>)
    requires
        forall|i: int|
            0 <= i < es.len() ==> (#[trigger] es[i]).contains(44u8) && meta_entry(rule, es[i]) is Some,
    ensures
        line_entries(rule, es) == Some(es.map_values(|e: Seq<u8>| meta_entry(rule, e)->Some_0)),
    decreases es.len(),
{
    if es.len() > 0 {
        let e1 = es.drop_last();
        assert forall|i: int| 0 <= i < e1.len() implies (#[trigger] e1[i]).contains(44u8) && meta_entry(
            rule,
            e1[i],
        ) is Some by {
            assert(e1[i] == es[i]);
        }
        lemma_line_entries_all(rule, e1);
        assert(es.last().contains(44u8) && meta_entry(rule, es.last()) is Some) by {
            assert(es[es.len() - 1] == es.last());
        }
        assert(es.map_values(|e: Seq<u8>| meta_entry(rule, e)->Some_0) =~= e1.map_values(
            |e: Seq<u8>| meta_entry(rule, e)->Some_0,
        ).push(meta_entry(rule, es.last())->Some_0));
    }
}

/// The line of a bucket whose packs have plain names and hashes is valid
/// UTF-8 without newline, and reads back as the packs' records.
proof fn lemma_bucket_line(rule: SizeRule, metas: Seq<PackFileMeta>)
    requires
        forall|j: int|
            0 <= j < metas.len() ==> plain_text((#[trigger] metas[j]).name@) && plain_text(
                metas[j].hash@,
            ),
    ensures
        valid_utf8(join_fields(metas.map_values(|m: PackFileMeta| entry_bytes(rule, m)), 32u8)),
        !join_fields(metas.map_values(|m: PackFileMeta| entry_bytes(rule, m)), 32u8).contains(
            10u8,
        ),
        line_entries(
            rule,
            split_fields(
                join_fields(metas.map_values(|m: PackFileMeta| entry_bytes(rule, m)), 32u8),
                32u8,
            ),
        ) == Some(metas.map_values(|m: PackFileMeta| record_of(rule, m))),
{
    let es = metas.map_values(|m: PackFileMeta| entry_bytes(rule, m));
    assert forall|i: int| 0 <= i < es.len() implies valid_utf8(#[trigger] es[i]) && !es[i].contains(
        10u8,
    ) && !es[i].contains(32u8) && es[i].contains(44u8) && meta_entry(rule, es[i]) == Some(
        record_of(rule, metas[i]),
    ) by {
        lemma_entry(rule, metas[i]);
    }
    lemma_join_valid(es, 32u8);
    if es.len() == 0 {
        assert(join_fields(es, 32u8) == Seq::<u8>::empty());
        let fs = split_fields(Seq::<u8>::empty(), 32u8);
        assert(fs == seq![Seq::<u8>::empty()]);
        assert(fs.drop_last() =~= Seq::<Seq<u8>>::empty());
        assert(!fs.last().contains(44u8));
        assert(line_entries(rule, Seq::<Seq<u8>>::empty()) == Some(
            Seq::<(Seq<char>, Seq<char>, nat)>::empty(),
        ));
        assert(metas.map_values(|m: PackFileMeta| record_of(rule, m)) =~= Seq::<
            (Seq<char>, Seq<char>, nat),
        >::empty());
    } else {
        lemma_split_join(es, 32u8);
        lemma_line_entries_all(rule, es);
        assert(es.map_values(|e: Seq<u8>| meta_entry(rule, e)->Some_0) =~= metas.map_values(
            |m: PackFileMeta| record_of(rule, m),
        ));
    }
}

proof fn lemma_lines_prefix(rule: SizeRule, packs: Seq<Vec<PackFileMeta>>, k: nat, n: nat)
    requires
        k <= n,
    ensures
        bucket_lines(rule, packs, k).len() <= bucket_lines(rule, packs, n).len(),
        bucket_lines(rule, packs, n).subrange(0, bucket_lines(rule, packs, k).len() as int)
            == bucket_lines(rule, packs, k),
    decreases n,
{
    if k < n {
        lemma_lines_prefix(rule, packs, k, (n - 1) as nat);
        let a = bucket_lines(rule, packs, (n - 1) as nat);
        let c = bucket_lines(rule, packs, k);
        assert(bucket_lines(rule, packs, n) == a + bucket_line(rule, packs, n - 1) + seq![10u8]);
        assert(bucket_lines(rule, packs, n).subrange(0, c.len() as int) =~= a.subrange(
            0,
            c.len() as int,
        ));
    } else {
        assert(bucket_lines(rule, packs, n).subrange(0, bucket_lines(rule, packs, n).len() as int)
            =~= bucket_lines(rule, packs, n));
    }
}

proof fn lemma_line_end_at(data: Seq<u8>, p: int, q: int)
    requires
        0 <= p <= q < data.len(),
        data[q] == 10u8,
        forall|i: int| p <= i < q ==> data[i] != 10u8,
    ensures
        line_end(data, p) == q + 1,
    decreases q - p,
{
    if p < q {
        lemma_line_end_at(data, p + 1, q);
    }
}

/// Reading a line of valid UTF-8 that ends in a newline gives its bytes.
proof fn lemma_read_utf8_line(data: Seq<u8>, p: int, a: Seq<u8>)
    requires
        0 <= p,
        p + a.len() < data.len(),
        data.subrange(p, p + a.len()) == a,
        data[p + a.len()] == 10u8,
        valid_utf8(a),
        !a.contains(10u8),
    ensures
        spec_read_line(data, p) == Some((a, p + a.len() + 1)),
{
    broadcast use valid_utf8_concat;

    assert forall|i: int| p <= i < p + a.len() implies data[i] != 10u8 by {
        assert(a[i - p] == data[i]);
        if data[i] == 10u8 {
            assert(a.contains(10u8));
        }
    }
    lemma_line_end_at(data, p, p + a.len());
    let c = data.subrange(p, p + a.len() + 1);
    let nl = seq![10u8];
    assert(all_ascii(nl));
    lemma_ascii_seq_valid(nl);
    assert(c =~= a + nl);
    assert(valid_utf8(c));
    assert(!is_continuation_byte(c[c.len() - 1]));
    assert(length_of_last_scalar(c) == 1);
    assert(pop_char(c) =~= a);
}

/// Reading the bucket lines from the `k`-th on gives the records of those
/// buckets.
proof fn lemma_read_bucket_lines(
    rule: SizeRule,
    packs: Seq<Vec<PackFileMeta>>,
    data: Seq<u8>,
    base: int,
    k: nat,
    n: nat,
)
    requires
        0 <= base,
        k <= n,
        n <= packs.len(),
        base + bucket_lines(rule, packs, n).len() <= data.len(),
        data.subrange(base, base + bucket_lines(rule, packs, n).len()) == bucket_lines(
            rule,
            packs,
            n,
        ),
        forall|b: int|
            0 <= b < n ==> valid_utf8(#[trigger] bucket_line(rule, packs, b)) && !bucket_line(
                rule,
                packs,
                b,
            ).contains(10u8) && line_entries(rule, split_fields(bucket_line(rule, packs, b), 32u8))
                == Some(packs[b]@.map_values(|m: PackFileMeta| record_of(rule, m))),
    ensures
        read_buckets(rule, data, base + bucket_lines(rule, packs, k).len(), (n - k) as nat) == Ok::<
            (Seq<Seq<(Seq<char>, Seq<char>, nat)>>, int),
            MetaFault,
        >(
            (
                expected_records(rule, packs).subrange(k as int, n as int),
                base + bucket_lines(rule, packs, n).len(),
            ),
        ),
    decreases n - k,
{
    let all = bucket_lines(rule, packs, n);
    if k == n {
        assert(expected_records(rule, packs).subrange(k as int, n as int) =~= Seq::<
            Seq<(Seq<char>, Seq<char>, nat)>,
        >::empty());
    } else {
        let pre = bucket_lines(rule, packs, k);
        let line = bucket_line(rule, packs, k as int);
        lemma_lines_prefix(rule, packs, k + 1, n);
        let next = bucket_lines(rule, packs, k + 1);
        assert(next == pre + line + seq![10u8]);
        let pl: int = pre.len() as int;
        let ll: int = line.len() as int;
        let pk = base + pl;
        assert(data.subrange(pk, pk + line.len()) =~= line) by {
            assert forall|i: int| 0 <= i < line.len() implies data.subrange(pk, pk + line.len())[i]
                == line[i] by {
                assert(next[pl + i] == line[i]);
                assert(all.subrange(0, next.len() as int)[pl + i] == next[pl + i]);
                assert(data.subrange(base, base + all.len())[pl + i] == all[pl + i]);
            }
        }
        assert(data[pk + line.len()] == 10u8) by {
            assert(next[pl + ll] == 10u8);
            assert(all.subrange(0, next.len() as int)[pl + ll] == next[pl + ll]);
            assert(data.subrange(base, base + all.len())[pl + ll] == all[pl + ll]);
        }
        assert(valid_utf8(line) && !line.contains(10u8));
        lemma_read_utf8_line(data, pk, line);
        lemma_read_bucket_lines(rule, packs, data, base, k + 1, n);
        assert(base + next.len() == pk + line.len() + 1);
        let er = expected_records(rule, packs);
        assert(er[k as int] == packs[k as int]@.map_values(|m: PackFileMeta| record_of(rule, m)));
        assert(seq![er[k as int]] + er.subrange(k as int + 1, n as int) =~= er.subrange(k as int, n as int));
    }
}

/// The header of a meta file is an ASCII line that reads back as its three
/// numbers.
proof fn lemma_header(b: nat, mx: nat, lm: nat)
    requires
        b <= u64::MAX,
        mx <= u64::MAX,
        lm <= u64::MAX,
    ensures
        all_ascii(meta_header(b, mx, lm)),
        !meta_header(b, mx, lm).contains(10u8),
        parse_numbers(meta_header(b, mx, lm), u64::MAX as nat) == Some(seq![b, mx, lm]),
{
    let db = spec_decimal(b);
    let dm = spec_decimal(mx);
    let dl = spec_decimal(lm);
    lemma_decimal_ascii(b);
    lemma_decimal_ascii(mx);
    lemma_decimal_ascii(lm);
    lemma_decimal_no_sep(b);
    lemma_decimal_no_sep(mx);
    lemma_decimal_no_sep(lm);
    let sp = seq![32u8];
    let h = meta_header(b, mx, lm);
    assert(h == db + sp + dm + sp + dl);
    assert forall|i: int| 0 <= i < h.len() implies #[trigger] h[i] < 128 by {
        if i < db.len() {
            assert(h[i] == db[i]);
        } else if i == db.len() {
        } else if i < db.len() + 1 + dm.len() {
            assert(h[i] == dm[i - db.len() - 1]);
        } else if i == db.len() + 1 + dm.len() {
        } else {
            assert(h[i] == dl[i - db.len() - 2 - dm.len()]);
        }
    }
    lemma_concat_no_byte(db, sp, 10u8);
    lemma_concat_no_byte(db + sp, dm, 10u8);
    lemma_concat_no_byte(db + sp + dm, sp, 10u8);
    lemma_concat_no_byte(db + sp + dm + sp, dl, 10u8);
    let fs = seq![db, dm, dl];
    assert(fs.drop_last() =~= seq![db, dm]);
    assert(seq![db, dm].drop_last() =~= seq![db]);
    assert(join_fields(seq![db], 32u8) == db);
    assert(join_fields(seq![db, dm], 32u8) == db + sp + dm);
    assert(join_fields(fs, 32u8) =~= h);
    lemma_split_join(fs, 32u8);
    lemma_parse_decimal(b, u64::MAX as nat);
    lemma_parse_decimal(mx, u64::MAX as nat);
    lemma_parse_decimal(lm, u64::MAX as nat);
    assert(spec_parse_unsigned(fs[0], u64::MAX as nat) == Some(b));
    assert(spec_parse_unsigned(fs[1], u64::MAX as nat) == Some(mx));
    assert(spec_parse_unsigned(fs[2], u64::MAX as nat) == Some(lm));
    assert(parse_numbers(h, u64::MAX as nat) =~= Some(seq![b, mx, lm]));
}

/// Reading back the meta file written for a scope under a layout gives the
/// scope's bucket count, pack size limit and time of writing, and the name
/// and hash of every pack of every bucket, in order, with its size under the
/// split layout (the first layout records none, and sizes read as 0); this
/// holds as long as names and hashes hold no space, comma or newline.
pub proof fn lemma_meta_file_roundtrip(rule: SizeRule, m: ScopeMeta)
    requires
        m.packs@.len() == m.buckets,
        forall|i: int, j: int|
            0 <= i < m.packs@.len() && 0 <= j < m.packs@[i]@.len() ==> plain_text(
                (#[trigger] m.packs@[i]@[j]).name@,
            ) && plain_text(m.packs@[i]@[j].hash@),
    ensures
        spec_read_scope_meta(rule, meta_file(rule, m)) == Ok::<
            (nat, nat, nat, Seq<Seq<(Seq<char>, Seq<char>, nat)>>),
            MetaFault,
        >(
            (
                m.buckets as nat,
                m.max_pack_size as nat,
                m.last_modified as nat,
                expected_records(rule, m.packs@),
            ),
        ),
{
    let n = m.buckets as nat;
    let packs = m.packs@;
    let h = meta_header(m.buckets as nat, m.max_pack_size as nat, m.last_modified as nat);
    let lines = bucket_lines(rule, packs, n);
    let data = meta_file(rule, m);
    assert(data == h + seq![10u8] + lines);
    lemma_header(m.buckets as nat, m.max_pack_size as nat, m.last_modified as nat);
    assert(data.subrange(0, h.len() as int) =~= h);
    assert(data[h.len() as int] == 10u8);
    lemma_read_ascii_line(data, 0, h);
    let base: int = h.len() as int + 1;
    assert forall|b: int| 0 <= b < n implies valid_utf8(#[trigger] bucket_line(rule, packs, b))
        && !bucket_line(rule, packs, b).contains(10u8) && line_entries(
        rule,
        split_fields(bucket_line(rule, packs, b), 32u8),
    ) == Some(packs[b]@.map_values(|x: PackFileMeta| record_of(rule, x))) by {
        let metas = packs[b]@;
        assert forall|j: int| 0 <= j < metas.len() implies plain_text((#[trigger] metas[j]).name@)
            && plain_text(metas[j].hash@) by {
            assert(metas[j] == m.packs@[b]@[j]);
        }
        lemma_bucket_line(rule, metas);
    }
    assert(data.subrange(base, base + lines.len()) =~= lines);
    lemma_read_bucket_lines(rule, packs, data, base, 0, n);
    assert(bucket_lines(rule, packs, 0) == Seq::<u8>::empty());
    assert(((m.buckets as nat) as u64) as usize == m.buckets);
    assert(((m.max_pack_size as nat) as u64) as usize == m.max_pack_size);
    assert(expected_records(rule, packs).subrange(0, n as int) =~= expected_records(rule, packs));
}

} // verus!
