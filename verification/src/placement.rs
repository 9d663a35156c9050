use vstd::prelude::*;

use crate::meta::PackFileMeta;
use crate::meta_law::plain_text;
use crate::pack::{Pack, pack_keys, pack_contents, spec_pack_loaded};
use crate::pack_file::pack_file;
use crate::scope::{PackScope, spec_scope_loaded};
use crate::scope_update::{scope_shape_ok, bucket_dir};
use crate::text::{spec_join, ascii_chars, hex16_bytes};
use crate::hash::{is_hex_name, hex_text};
use crate::scope_write::{PackWriteJob, writes_recorded, written_meta, job_at, meta_at, pack_at};
use crate::storage::FileMeta;
use crate::laws::lemma_select_from;
use crate::packing::{SizeRule, value_len_sorted, pack_layout, greedy_batches, greedy_take, created_pack, packing_queue, big_suffix_len};
use crate::update::{select_by, removed_flags, poured_items, inserted_items, update_keys};
use crate::scope_update::{
    scope_update_outcome, bucket_done, zipped, scope_pairs, kept_pairs, scope_bucket_updates,
};

verus! {

/// A pack as the scope places it: its file lies in its bucket's directory
/// under the name its meta records, name and hash are plain text, and it
/// holds at least one item, read, with as many values as keys.
pub open spec fn placed_pack(scope_path: Seq<char>, b: int, m: PackFileMeta, p: Pack) -> bool {
    &&& p.path@ == spec_join(bucket_dir(scope_path, b), m.name@)
    &&& plain_text(m.name@)
    &&& plain_text(m.hash@)
    &&& spec_pack_loaded(p)
    &&& pack_keys(p).len() >= 1
    &&& pack_keys(p).len() == pack_contents(p).len()
}

/// The file of a pack fits the machine: its lengths can be written and read.
pub open spec fn pack_fits(p: Pack) -> bool {
    &&& forall|j: int| 0 <= j < pack_keys(p).len() ==> (#[trigger] pack_keys(p)[j]).len() <= usize::MAX
    &&& forall|j: int|
        0 <= j < pack_contents(p).len() ==> (#[trigger] pack_contents(p)[j]).len() <= usize::MAX
    &&& pack_keys(p).flatten().len() <= i64::MAX
    &&& pack_file(pack_keys(p), pack_contents(p)).len() <= usize::MAX
}

/// A read scope whose every pack is placed, with a meta that counts its
/// buckets.
pub open spec fn placed_scope(s: PackScope) -> bool {
    &&& scope_shape_ok(s)
    &&& spec_scope_loaded(s)
    &&& s.meta->Value_0.buckets == s.options.buckets
    &&& forall|b: int, i: int|
        0 <= b < s.options.buckets && 0 <= i < s.packs->Value_0@[b]@.len() ==> placed_pack(
            s.path@,
            b,
            s.meta->Value_0.packs@[b]@[i],
            #[trigger] s.packs->Value_0@[b]@[i],
        )
}

/// Sixteen hexadecimal digits are plain text.
pub proof fn lemma_hex_plain(x: u64)
    ensures
        plain_text(ascii_chars(hex16_bytes(x))),
{
    let bs = hex16_bytes(x);
    let cs = ascii_chars(bs);
    assert forall|i: int| 0 <= i < cs.len() implies cs[i] != ' ' && cs[i] != ',' && cs[i] != '\n' by {
        let d = ((x as int) / crate::text::pow16(15 - i)) % 16;
        assert(0 <= d < 16);
        assert((48 <= bs[i] <= 57) || (97 <= bs[i] <= 102));
    }
}

proof fn lemma_greedy_nonempty(rule: SizeRule, q: Seq<(Seq<u8>, Seq<u8>)>, max: int)
    ensures
        forall|i: int|
            0 <= i < greedy_batches(rule, q, max).len() ==> (#[trigger] greedy_batches(rule, q, max)[i]).len() >= 1,
    decreases q.len(),
{
    let t = greedy_take(rule, q, max, 0);
    if 0 < t <= q.len() {
        lemma_greedy_nonempty(rule, q.skip(t), max);
        let rest = greedy_batches(rule, q.skip(t), max);
        assert(greedy_batches(rule, q, max) == seq![q.take(t)] + rest);
        assert forall|i: int| 0 <= i < greedy_batches(rule, q, max).len() implies (#[trigger] greedy_batches(rule, q, max)[i]).len() >= 1 by {
            if i > 0 {
                assert(greedy_batches(rule, q, max)[i] == rest[i - 1]);
            }
        }
    }
}

/// Every pack of a layout holds at least one item.
proof fn lemma_layout_nonempty(rule: SizeRule, p: Seq<(Seq<u8>, Seq<u8>)>, max: int)
    ensures
        forall|i: int| 0 <= i < pack_layout(rule, p, max).len() ==> (#[trigger] pack_layout(rule, p, max)[i]).len() >= 1,
{
    let n = big_suffix_len(rule, p, max);
    let m = p.len() - n;
    let bigs = Seq::new(n, |i: int| seq![p[p.len() - 1 - i]]);
    let g = greedy_batches(rule, packing_queue(rule, p, m), max);
    lemma_greedy_nonempty(rule, packing_queue(rule, p, m), max);
    assert(pack_layout(rule, p, max) == bigs + g);
    assert forall|i: int| 0 <= i < pack_layout(rule, p, max).len() implies (#[trigger] pack_layout(rule, p, max)[i]).len() >= 1 by {
        if i < n {
            assert(pack_layout(rule, p, max)[i] == bigs[i]);
        } else {
            assert(pack_layout(rule, p, max)[i] == g[i - n]);
        }
    }
}

/// A new pack of an update is placed in the bucket it was made for.
proof fn lemma_created_placed(
    rule: SizeRule,
    scope_path: Seq<char>,
    b: int,
    e: (PackFileMeta, Pack),
    batch: Seq<(Seq<u8>, Seq<u8>)>,
)
    requires
        created_pack(e, bucket_dir(scope_path, b), batch, rule),
        batch.len() >= 1,
    ensures
        placed_pack(scope_path, b, e.0, e.1),
{
    let d = choose|d: u64| e.0.name@ == #[trigger] hex_text(d);
    lemma_hex_plain(d);
    assert(pack_keys(e.1).len() == batch.len());
    assert(pack_contents(e.1).len() == batch.len());
    assert(!e.0.hash@.contains(' ') && !e.0.hash@.contains(',') && !e.0.hash@.contains('\n'));
}

proof fn lemma_bucket_placed(
    rule: SizeRule,
    place: spec_fn(Seq<u8>) -> int,
    s: PackScope,
    u: Seq<(Seq<u8>, Option<Seq<u8>>)>,
    after: PackScope,
    b: int,
    i: int,
)
    requires
        placed_scope(s),
        scope_update_outcome(rule, place, s, u, after),
        0 <= b < s.options.buckets,
        0 <= i < after.packs->Value_0@[b]@.len(),
    ensures
        placed_pack(after.path@, b, after.meta->Value_0.packs@[b]@[i], after.packs->Value_0@[b]@[i]),
{
    let mb = after.meta->Value_0.packs@[b];
    let pb = after.packs->Value_0@[b];
    assert(bucket_done(rule, place, s, u, b, mb, pb));
    let ub = scope_bucket_updates(place, s, u, b);
    if ub.len() != 0 {
        let max = s.options.max_pack_size as int;
        let z = zipped(mb@, pb@);
        let k = kept_pairs(rule, place, s, u, b).len() as int;
        let pairs = scope_pairs(s, b);
        let flags = removed_flags(rule, pairs, ub, max);
        assert(z[i] == (mb@[i], pb@[i]));
        if i < k {
            assert(z.take(k)[i] == z[i]);
            lemma_select_from(pairs, flags, false);
            assert(select_by(pairs, flags, false)[i] == z[i]);
            assert(pairs.contains(z[i]));
            let j = choose|j: int| 0 <= j < pairs.len() && pairs[j] == z[i];
            assert(placed_pack(
                s.path@,
                b,
                s.meta->Value_0.packs@[b]@[j],
                s.packs->Value_0@[b]@[j],
            ));
        } else {
            let new = z.skip(k);
            assert(new[i - k] == z[i]);
            let p = choose|p: Seq<(Seq<u8>, Seq<u8>)>|
                {
                    &&& value_len_sorted(p)
                    &&& p.to_multiset() == (poured_items(pairs, flags, update_keys(ub))
                        + inserted_items(ub)).to_multiset()
                    &&& crate::packing::created_packs(
                        new,
                        bucket_dir(s.path@, b),
                        #[trigger] pack_layout(rule, p, max),
                        rule,
                    )
                };
            lemma_layout_nonempty(rule, p, max);
            assert(created_pack(new[i - k], bucket_dir(s.path@, b), pack_layout(rule, p, max)[i - k], rule));
            lemma_created_placed(rule, s.path@, b, new[i - k], pack_layout(rule, p, max)[i - k]);
        }
    }
}

/// Updating keeps a scope placed: after any update of a placed scope, every
/// pack, kept or new, lies in its bucket's directory under the name its meta
/// records, with plain name and hash, and holds at least one read item with
/// as many values as keys.
pub proof fn lemma_update_keeps_placed(
    rule: SizeRule,
    place: spec_fn(Seq<u8>) -> int,
    s: PackScope,
    u: Seq<(Seq<u8>, Option<Seq<u8>>)>,
    after: PackScope,
)
    requires
        placed_scope(s),
        scope_update_outcome(rule, place, s, u, after),
    ensures
        placed_scope(after),
{
    assert forall|b: int, i: int|
        0 <= b < after.options.buckets && 0 <= i < after.packs->Value_0@[b]@.len() implies placed_pack(
            after.path@,
            b,
            after.meta->Value_0.packs@[b]@[i],
            #[trigger] after.packs->Value_0@[b]@[i],
        ) by {
        lemma_bucket_placed(rule, place, s, u, after, b, i);
    }
    assert forall|b: int, i: int|
        0 <= b < (after.packs->Value_0)@.len() && 0 <= i < (after.packs->Value_0)@[b]@.len()
            implies spec_pack_loaded(#[trigger] (after.packs->Value_0)@[b]@[i]) by {
        lemma_bucket_placed(rule, place, s, u, after, b, i);
    }
}

/// Recording written packs keeps a scope placed: only hashes, sizes and the
/// written marks change, and a recorded hash is plain text.
pub proof fn lemma_write_keeps_placed(
    rule: SizeRule,
    s: PackScope,
    jobs: Seq<PackWriteJob>,
    stats: Seq<FileMeta>,
    after: PackScope,
)
    requires
        placed_scope(s),
        writes_recorded(rule, s, jobs, stats, after),
    ensures
        placed_scope(after),
{
    assert forall|b: int, i: int|
        0 <= b < after.options.buckets && 0 <= i < after.packs->Value_0@[b]@.len() implies placed_pack(
            after.path@,
            b,
            after.meta->Value_0.packs@[b]@[i],
            #[trigger] after.packs->Value_0@[b]@[i],
        ) by {
        assert(placed_pack(s.path@, b, s.meta->Value_0.packs@[b]@[i], s.packs->Value_0@[b]@[i]));
        if job_at(jobs, (b, i)) {
            let j = choose|j: int| 0 <= j < jobs.len() && (#[trigger] jobs[j]).bucket == b && jobs[j].pos == i;
            assert(written_meta(
                rule,
                meta_at(s, (jobs[j].bucket as int, jobs[j].pos as int)),
                pack_at(s, (jobs[j].bucket as int, jobs[j].pos as int)),
                stats[j],
                meta_at(after, (jobs[j].bucket as int, jobs[j].pos as int)),
            ));
            let m = meta_at(after, (b, i));
            let d = choose|d: u64| m.hash@ == #[trigger] hex_text(d);
            lemma_hex_plain(d);
        } else {
            assert(meta_at(after, (b, i)) == meta_at(s, (b, i)));
        }
    }
}

} // verus!
