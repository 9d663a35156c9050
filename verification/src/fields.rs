use vstd::prelude::*;

use crate::text::{spec_decimal, lemma_decimal_ascii, is_digit};

verus! {

/// The fields of `s` between the separators, as `str::split` gives them:
/// always at least one field, empty fields included.
pub open spec fn split_fields(s: Seq<u8>, sep: u8) -> Seq<Seq<u8>>
    decreases s.len(),
{
    if s.len() == 0 {
        seq![Seq::<u8>::empty()]
    } else {
        let r = split_fields(s.drop_last(), sep);
        if s.last() == sep {
            r.push(Seq::empty())
        } else {
            r.update(r.len() - 1, r.last().push(s.last()))
        }
    }
}

/// Fields joined by a separator, as `join` writes them; no fields give the
/// empty string.
pub open spec fn join_fields(fs: Seq<Seq<u8>>, sep: u8) -> Seq<u8>
    decreases fs.len(),
{
    if fs.len() == 0 {
        Seq::empty()
    } else if fs.len() == 1 {
        fs[0]
    } else {
        join_fields(fs.drop_last(), sep) + seq![sep] + fs.last()
    }
}

pub proof fn lemma_split_len(s: Seq<u8>, sep: u8)
    ensures
        split_fields(s, sep).len() >= 1,
    decreases s.len(),
{
    if s.len() > 0 {
        lemma_split_len(s.drop_last(), sep);
    }
}

/// Appending bytes without separator extends the last field.
pub proof fn lemma_split_append(x: Seq<u8>, y: Seq<u8>, sep: u8)
    requires
        !y.contains(sep),
    ensures
        split_fields(x + y, sep) == split_fields(x, sep).update(
            split_fields(x, sep).len() - 1,
            split_fields(x, sep).last() + y,
        ),
    decreases y.len(),
{
    lemma_split_len(x, sep);
    if y.len() == 0 {
        assert(x + y =~= x);
        assert(split_fields(x, sep).last() + y =~= split_fields(x, sep).last());
        assert(split_fields(x, sep).update(
            split_fields(x, sep).len() - 1,
            split_fields(x, sep).last(),
        ) =~= split_fields(x, sep));
    } else {
        let y1 = y.drop_last();
        assert(!y1.contains(sep)) by {
            if y1.contains(sep) {
                let i = choose|i: int| 0 <= i < y1.len() && y1[i] == sep;
                assert(y[i] == sep);
            }
        }
        lemma_split_append(x, y1, sep);
        assert((x + y).drop_last() =~= x + y1);
        assert((x + y).last() == y.last());
        assert(y.last() != sep) by {
            assert(y[y.len() - 1] == y.last());
        }
        let r = split_fields(x, sep);
        lemma_split_len(x + y1, sep);
        let r1 = split_fields(x + y1, sep);
        assert(r1 == r.update(r.len() - 1, r.last() + y1));
        assert(r1.len() == r.len());
        assert(r1.last() == r.last() + y1);
        assert(split_fields(x + y, sep) == r1.update(r1.len() - 1, r1.last().push(y.last())));
        assert((r.last() + y1).push(y.last()) =~= r.last() + y);
        assert(split_fields(x + y, sep) =~= r.update(r.len() - 1, r.last() + y));
    }
}

/// Splitting fields joined by a separator that none of them holds gives the
/// fields back.
pub proof fn lemma_split_join(fs: Seq<Seq<u8>>, sep: u8)
    requires
        fs.len() >= 1,
        forall|i: int| 0 <= i < fs.len() ==> !(#[trigger] fs[i]).contains(sep),
    ensures
        split_fields(join_fields(fs, sep), sep) == fs,
    decreases fs.len(),
{
    if fs.len() == 1 {
        lemma_split_append(Seq::empty(), fs[0], sep);
        assert(Seq::<u8>::empty() + fs[0] =~= fs[0]);
        assert(split_fields(Seq::<u8>::empty(), sep) == seq![Seq::<u8>::empty()]);
        assert(seq![Seq::<u8>::empty()].update(0, Seq::<u8>::empty() + fs[0]) =~= fs);
    } else {
        let f1 = fs.drop_last();
        lemma_split_join(f1, sep);
        let j1 = join_fields(f1, sep);
        let with_sep = j1 + seq![sep];
        assert(with_sep.drop_last() =~= j1);
        assert(split_fields(with_sep, sep) == f1.push(Seq::empty()));
        lemma_split_append(with_sep, fs.last(), sep);
        assert(!fs.last().contains(sep)) by {
            assert(fs[fs.len() - 1] == fs.last());
        }
        assert(f1.push(Seq::empty()).update(f1.len() as int, Seq::<u8>::empty() + fs.last())
            =~= fs);
    }
}

/// The decimal digits of a number hold no space.
pub proof fn lemma_decimal_no_sep(n: nat)
    ensures
        !spec_decimal(n).contains(32u8),
        !spec_decimal(n).contains(44u8),
        !spec_decimal(n).contains(10u8),
{
    lemma_decimal_ascii(n);
    if spec_decimal(n).contains(32u8) {
        let i = choose|i: int| 0 <= i < spec_decimal(n).len() && spec_decimal(n)[i] == 32u8;
        assert(is_digit(spec_decimal(n)[i]));
    }
    if spec_decimal(n).contains(44u8) {
        let i = choose|i: int| 0 <= i < spec_decimal(n).len() && spec_decimal(n)[i] == 44u8;
        assert(is_digit(spec_decimal(n)[i]));
    }
    if spec_decimal(n).contains(10u8) {
        let i = choose|i: int| 0 <= i < spec_decimal(n).len() && spec_decimal(n)[i] == 10u8;
        assert(is_digit(spec_decimal(n)[i]));
    }
}

/// Splits bytes on a separator.
pub fn split_bytes(s: &[u8], sep: u8) -> (r: Vec<Vec<u8>>)
    ensures
        r@.map_values(|v: Vec<u8>| v@) == split_fields(s@, sep),
{
    let mut out: Vec<Vec<u8>> = Vec::new();
    let mut cur: Vec<u8> = Vec::new();
    let mut i: usize = 0;
    proof {
        assert(s@.take(0) =~= Seq::<u8>::empty());
        assert(out@.map_values(|v: Vec<u8>| v@).push(cur@) =~= seq![Seq::<u8>::empty()]);
    }
    while i < s.len()
        invariant
            i <= s@.len(),
            out@.map_values(|v: Vec<u8>| v@).push(cur@) == split_fields(s@.take(i as int), sep),
        decreases s@.len() - i,
    {
        let ghost before = out@.map_values(|v: Vec<u8>| v@).push(cur@);
        proof {
            assert(s@.take(i + 1).drop_last() =~= s@.take(i as int));
            assert(s@.take(i + 1).last() == s@[i as int]);
        }
        if s[i] == sep {
            let mut done: Vec<u8> = Vec::new();
            std::mem::swap(&mut cur, &mut done);
            out.push(done);
            proof {
                assert(out@.map_values(|v: Vec<u8>| v@).push(cur@) =~= before.push(Seq::empty()));
            }
        } else {
            cur.push(s[i]);
            proof {
                assert(out@.map_values(|v: Vec<u8>| v@).push(cur@) =~= before.update(
                    before.len() - 1,
                    before.last().push(s@[i as int]),
                ));
            }
        }
        i = i + 1;
    }
    proof {
        assert(s@.take(i as int) =~= s@);
    }
    out.push(cur);
    out
}

/// Joins byte strings with a separator.
pub fn join_bytes(fs: &Vec<Vec<u8>>, sep: u8) -> (r: Vec<u8>)
    ensures
        r@ == join_fields(fs@.map_values(|v: Vec<u8>| v@), sep),
{
    let ghost fv = fs@.map_values(|v: Vec<u8>| v@);
    let mut out: Vec<u8> = Vec::new();
    let mut i: usize = 0;
    while i < fs.len()
        invariant
            i <= fs@.len(),
            fv == fs@.map_values(|v: Vec<u8>| v@),
            out@ == join_fields(fv.take(i as int), sep),
        decreases fs@.len() - i,
    {
        let ghost o0 = out@;
        if i > 0 {
            out.push(sep);
        }
        let mut j: usize = 0;
        let ghost o1 = out@;
        while j < fs[i].len()
            invariant
                i < fs@.len(),
                j <= fs@[i as int]@.len(),
                out@ == o1 + fs@[i as int]@.take(j as int),
            decreases fs@[i as int]@.len() - j,
        {
            out.push(fs[i][j]);
            proof {
                assert(fs@[i as int]@.take(j + 1) =~= fs@[i as int]@.take(j as int).push(fs@[i as int]@[j as int]));
            }
            j = j + 1;
        }
        proof {
            assert(fs@[i as int]@.take(j as int) =~= fs@[i as int]@);
            let t = fv.take(i + 1);
            assert(t.drop_last() =~= fv.take(i as int));
            assert(t.last() == fs@[i as int]@);
            if i == 0 {
                assert(t.len() == 1);
                assert(out@ =~= t[0]);
            } else {
                assert(out@ =~= join_fields(fv.take(i as int), sep) + seq![sep] + t.last());
            }
        }
        i = i + 1;
    }
    proof {
        assert(fv.take(i as int) =~= fv);
    }
    out
}

} // verus!

verus! {

/// Cutting valid UTF-8 at an ASCII byte leaves valid UTF-8 on both sides.
pub proof fn lemma_utf8_cut(s: Seq<u8>, i: int)
    requires
        vstd::utf8::valid_utf8(s),
        0 <= i < s.len(),
        s[i] < 128,
    ensures
        vstd::utf8::valid_utf8(s.take(i)),
        vstd::utf8::valid_utf8(s.skip(i + 1)),
{
    broadcast use vstd::utf8::is_char_boundary_iff_not_is_continuation_byte;

    vstd::utf8::is_char_boundary_iff_not_is_continuation_byte(s, i);
    vstd::utf8::valid_utf8_split(s, i);
    assert(s.subrange(0, i) =~= s.take(i));
    let t = s.subrange(i, s.len() as int);
    assert(t[0] == s[i]);
    assert(vstd::utf8::length_of_first_scalar(t) == 1);
    assert(vstd::utf8::pop_first_scalar(t) =~= s.skip(i + 1));
}

/// The position of the last separator in bytes that hold one.
proof fn lemma_last_sep(s: Seq<u8>, sep: u8) -> (i: int)
    requires
        s.contains(sep),
    ensures
        0 <= i < s.len(),
        s[i] == sep,
        forall|j: int| i < j < s.len() ==> #[trigger] s[j] != sep,
    decreases s.len(),
{
    if s.last() == sep {
        s.len() - 1
    } else {
        let w = choose|w: int| 0 <= w < s.len() && s[w] == sep;
        assert(w != s.len() - 1);
        assert(s.drop_last()[w] == sep);
        let i = lemma_last_sep(s.drop_last(), sep);
        assert forall|j: int| i < j < s.len() implies #[trigger] s[j] != sep by {
            if j < s.len() - 1 {
                assert(s.drop_last()[j] == s[j]);
            }
        }
        i
    }
}

/// The fields of valid UTF-8 split at an ASCII separator are valid UTF-8.
pub proof fn lemma_split_fields_utf8(s: Seq<u8>, sep: u8)
    requires
        vstd::utf8::valid_utf8(s),
        sep < 128,
    ensures
        forall|k: int|
            0 <= k < split_fields(s, sep).len() ==> vstd::utf8::valid_utf8(
                #[trigger] split_fields(s, sep)[k],
            ),
    decreases s.len(),
{
    if !s.contains(sep) {
        lemma_split_append(Seq::empty(), s, sep);
        assert(Seq::<u8>::empty() + s =~= s);
        assert(split_fields(Seq::<u8>::empty(), sep) == seq![Seq::<u8>::empty()]);
        assert(split_fields(s, sep) =~= seq![s]);
    } else {
        let i = lemma_last_sep(s, sep);
        let x = s.take(i);
        let y = s.skip(i + 1);
        lemma_utf8_cut(s, i);
        assert(!y.contains(sep)) by {
            if y.contains(sep) {
                let j = choose|j: int| 0 <= j < y.len() && y[j] == sep;
                assert(y[j] == s[i + 1 + j]);
                assert(s[i + 1 + j] != sep);
            }
        }
        let xs = x + seq![sep];
        assert(xs.drop_last() =~= x);
        assert(xs.last() == sep);
        assert(split_fields(xs, sep) == split_fields(x, sep).push(Seq::empty()));
        lemma_split_append(xs, y, sep);
        assert(xs + y =~= s);
        assert(split_fields(s, sep) =~= split_fields(x, sep).push(y));
        lemma_split_fields_utf8(x, sep);
    }
}

} // verus!
