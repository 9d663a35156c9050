use vstd::prelude::*;

use crate::bucket::place_ok;
use crate::laws::{
    kc, lemma_kc_concat, lemma_kc_distinct, lemma_kc_contains, lemma_kc_pos, lemma_kc_none,
    packs_wf, pack_wf, applied, lemma_update_outcome_law, lemma_all_items_push,
};
use crate::meta::PackFileMeta;
use crate::model::keys_distinct;
use crate::pack::{Pack, pack_items};
use crate::packing::SizeRule;
use crate::scope::{PackScope, bucket_items, buckets_items, scope_items};
use crate::scope_update::{
    holds_key, scope_shape_ok, scope_pairs, scope_bucket_updates, bucket_updates, zipped, bucket_done,
    update_in, item_in, key_in, all_placed, all_dropped, keep_removed,
    scope_update_outcome, kept_pairs,
};
use crate::update::{
    all_items, inserted_items, update_keys, update_limits_ok, poured_items, removed_flags,
};
use crate::packing::lemma_legacy_no_stall;

verus! {

/// A scope that an update can work on: its shape is sound, every pack is read
/// and its keys and values agree, every key lies in its own bucket, and no key
/// occurs twice.
pub open spec fn scope_wf(place: spec_fn(Seq<u8>) -> int, s: PackScope) -> bool {
    &&& scope_shape_ok(s)
    &&& place_ok(place, s.options.buckets as int)
    &&& forall|b: int, i: int|
        0 <= b < s.options.buckets && 0 <= i < (s.packs->Value_0)@[b]@.len() ==> pack_wf(
            #[trigger] (s.packs->Value_0)@[b]@[i],
        )
    &&& forall|b: int, x: (Seq<u8>, Seq<u8>)|
        0 <= b < s.options.buckets && #[trigger] bucket_items((s.packs->Value_0)@[b]@).contains(
            x,
        ) ==> place(x.0) == b
    &&& keys_distinct(scope_items(s))
}

pub proof fn lemma_all_items_zipped(ms: Seq<PackFileMeta>, ps: Seq<Pack>)
    requires
        ms.len() == ps.len(),
    ensures
        all_items(zipped(ms, ps)) == bucket_items(ps),
    decreases ps.len(),
{
    if ps.len() > 0 {
        let n = ps.len() - 1;
        lemma_all_items_zipped(ms.drop_last(), ps.drop_last());
        assert(zipped(ms, ps).drop_last() =~= zipped(ms.drop_last(), ps.drop_last()));
    } else {
        assert(zipped(ms, ps) =~= Seq::<(PackFileMeta, Pack)>::empty());
    }
}

pub proof fn lemma_all_items_concat(a: Seq<(PackFileMeta, Pack)>, b: Seq<(PackFileMeta, Pack)>)
    ensures
        all_items(a + b) == all_items(a) + all_items(b),
    decreases b.len(),
{
    if b.len() == 0 {
        assert(a + b =~= a);
        assert(all_items(a) + all_items(b) =~= all_items(a));
    } else {
        lemma_all_items_concat(a, b.drop_last());
        assert((a + b).drop_last() =~= a + b.drop_last());
        assert((a + b).last() == b.last());
        assert(all_items(a) + (all_items(b.drop_last()) + pack_items(b.last().1)) =~= (all_items(a)
            + all_items(b.drop_last())) + pack_items(b.last().1));
    }
}

/// Key counts of all buckets, when each key lies in its own bucket.
proof fn lemma_kc_buckets(rule: SizeRule, place: spec_fn(Seq<u8>) -> int, bs: Seq<Vec<Pack>>, total: usize, k: Seq<u8>)
    requires
        forall|b: int, x: (Seq<u8>, Seq<u8>)|
            0 <= b < bs.len() && #[trigger] bucket_items(bs[b]@).contains(x) ==> place(x.0) == b,
    ensures
        kc(buckets_items(bs), k) == (if 0 <= place(k) < bs.len() {
            kc(bucket_items(bs[place(k)]@), k)
        } else {
            0
        }),
    decreases bs.len(),
{
    if bs.len() > 0 {
        let b = bs.len() - 1;
        lemma_kc_buckets(rule, place, bs.drop_last(), total, k);
        lemma_kc_concat(buckets_items(bs.drop_last()), bucket_items(bs.last()@), k);
        if place(k) != b {
            if kc(bucket_items(bs.last()@), k) > 0 {
                let i = lemma_kc_pos(bucket_items(bs.last()@), k);
                assert(bucket_items(bs[b]@).contains(bucket_items(bs.last()@)[i]));
            }
        }
        if 0 <= place(k) < b {
            assert(bs.drop_last()[place(k)] == bs[place(k)]);
        }
    } else {
        assert(buckets_items(bs) =~= Seq::<(Seq<u8>, Seq<u8>)>::empty());
    }
}

proof fn lemma_buckets_contains(bs: Seq<Vec<Pack>>, x: (Seq<u8>, Seq<u8>))
    ensures
        buckets_items(bs).contains(x) <==> exists|b: int|
            0 <= b < bs.len() && #[trigger] bucket_items(bs[b]@).contains(x),
    decreases bs.len(),
{
    if bs.len() > 0 {
        let s1 = bs.drop_last();
        lemma_buckets_contains(s1, x);
        let a = buckets_items(s1);
        let c = bucket_items(bs.last()@);
        assert(buckets_items(bs) == a + c);
        if (a + c).contains(x) {
            let i = choose|i: int| 0 <= i < (a + c).len() && (a + c)[i] == x;
            if i < a.len() {
                assert(a[i] == x);
                assert(a.contains(x));
                let b = choose|b: int| 0 <= b < s1.len() && #[trigger] bucket_items(s1[b]@).contains(x);
                assert(s1[b] == bs[b]);
            } else {
                assert(c[i - a.len()] == x);
                assert(bucket_items(bs[bs.len() - 1]@).contains(x));
            }
        }
        if exists|b: int| 0 <= b < bs.len() && #[trigger] bucket_items(bs[b]@).contains(x) {
            let b = choose|b: int| 0 <= b < bs.len() && #[trigger] bucket_items(bs[b]@).contains(x);
            if b < s1.len() {
                assert(s1[b] == bs[b]);
                assert(a.contains(x));
                let i = choose|i: int| 0 <= i < a.len() && a[i] == x;
                assert((a + c)[i] == x);
            } else {
                let i = choose|i: int| 0 <= i < c.len() && c[i] == x;
                assert((a + c)[a.len() + i] == x);
            }
        }
    } else {
        assert(buckets_items(bs) =~= Seq::<(Seq<u8>, Seq<u8>)>::empty());
    }
}

proof fn lemma_inserted_filter(
    rule: SizeRule,
    place: spec_fn(Seq<u8>) -> int,
    u: Seq<(Seq<u8>, Option<Seq<u8>>)>,
    total: usize,
    b: int,
)
    ensures
        inserted_items(bucket_updates(place, u, b)) == inserted_items(u).filter(
            item_in(place, b),
        ),
        update_keys(bucket_updates(place, u, b)) == update_keys(u).filter(
            key_in(place, b),
        ),
    decreases u.len(),
{
    let f = update_in(place, b);
    let g = item_in(place, b);
    let h = key_in(place, b);
    if u.len() == 0 {
        assert(u.filter(f) =~= Seq::<(Seq<u8>, Option<Seq<u8>>)>::empty());
        assert(inserted_items(u).filter(g) =~= Seq::<(Seq<u8>, Seq<u8>)>::empty());
        assert(update_keys(u).filter(h) =~= Seq::<Seq<u8>>::empty());
        assert(update_keys(u.filter(f)) =~= Seq::<Seq<u8>>::empty());
    } else {
        let u1 = u.drop_last();
        let x = u.last();
        lemma_inserted_filter(rule, place, u1, total, b);
        assert(u1.push(x) =~= u);
        u1.lemma_filter_push(x, f);
        assert(update_keys(u) =~= update_keys(u1).push(x.0));
        update_keys(u1).lemma_filter_push(x.0, h);
        if f(x) {
            assert(u.filter(f) == u1.filter(f).push(x));
            assert(u1.filter(f).push(x).drop_last() =~= u1.filter(f));
            assert(update_keys(u1.filter(f).push(x)) =~= update_keys(u1.filter(f)).push(x.0));
        } else {
            assert(u.filter(f) == u1.filter(f));
        }
        match x.1 {
            Some(v) => {
                assert(inserted_items(u) == inserted_items(u1).push((x.0, v)));
                inserted_items(u1).lemma_filter_push((x.0, v), g);
            },
            None => {
                assert(inserted_items(u) == inserted_items(u1));
            },
        }
    }
}

proof fn lemma_filter_no_dup<A>(s: Seq<A>, f: spec_fn(A) -> bool)
    requires
        s.no_duplicates(),
    ensures
        s.filter(f).no_duplicates(),
    decreases s.len(),
{
    if s.len() == 0 {
        assert(s.filter(f) =~= Seq::<A>::empty());
    } else {
        let s1 = s.drop_last();
        let x = s.last();
        assert(s1.push(x) =~= s);
        lemma_filter_no_dup(s1, f);
        s1.lemma_filter_push(x, f);
        if f(x) {
            if s1.filter(f).contains(x) {
                s1.lemma_filter_contains_rev(f, x);
                let i = choose|i: int| 0 <= i < s1.len() && s1[i] == x;
                assert(s[i] == s[s.len() - 1]);
            }
            let t = s1.filter(f).push(x);
            assert forall|i: int, j: int| 0 <= i < t.len() && 0 <= j < t.len() && i != j implies t[i] != t[j] by {
                if i == t.len() - 1 {
                    assert(s1.filter(f)[j] == t[j]);
                    assert(s1.filter(f).contains(t[j]));
                } else if j == t.len() - 1 {
                    assert(s1.filter(f)[i] == t[i]);
                    assert(s1.filter(f).contains(t[i]));
                }
            }
        }
    }
}

/// The items of bucket `b` of a well-formed scope have distinct keys.
proof fn lemma_bucket_distinct(rule: SizeRule, place: spec_fn(Seq<u8>) -> int, s: PackScope, b: int)
    requires
        scope_wf(place, s),
        0 <= b < s.options.buckets,
    ensures
        keys_distinct(bucket_items((s.packs->Value_0)@[b]@)),
{
    let bs = (s.packs->Value_0)@;
    let total = s.options.buckets;
    let ob = bucket_items(bs[b]@);
    lemma_kc_distinct(scope_items(s));
    assert forall|k: Seq<u8>| #[trigger] kc(ob, k) <= 1 by {
        lemma_kc_buckets(rule, place, bs, total, k);
        if place(k) != b && kc(ob, k) > 0 {
            let i = lemma_kc_pos(ob, k);
            assert(ob.contains(ob[i]));
        }
        assert(kc(scope_items(s), k) <= 1);
    }
    lemma_kc_distinct(ob);
}

/// Bucket `b` after an update holds what the updates that fall in it make of
/// its items, with distinct keys, in well-formed packs.
proof fn lemma_bucket_law(
    rule: SizeRule,
    place: spec_fn(Seq<u8>) -> int,
    s: PackScope,
    u: Seq<(Seq<u8>, Option<Seq<u8>>)>,
    after: PackScope,
    b: int,
)
    requires
        scope_wf(place, s),
        update_keys(u).no_duplicates(),
        forall|b2: int|
            0 <= b2 < s.options.buckets ==> update_limits_ok(
                rule,
                #[trigger] scope_pairs(s, b2),
                scope_bucket_updates(place, s, u, b2),
                s.options.max_pack_size as int,
            ),
        scope_update_outcome(rule, place, s, u, after),
        0 <= b < s.options.buckets,
    ensures
        forall|i: int|
            0 <= i < (after.packs->Value_0)@[b]@.len() ==> pack_wf(
                #[trigger] (after.packs->Value_0)@[b]@[i],
            ),
        keys_distinct(bucket_items((after.packs->Value_0)@[b]@)),
        forall|x: (Seq<u8>, Seq<u8>)|
            #![trigger bucket_items((after.packs->Value_0)@[b]@).contains(x)]
            bucket_items((after.packs->Value_0)@[b]@).contains(x) <==> applied(
                bucket_items((s.packs->Value_0)@[b]@),
                scope_bucket_updates(place, s, u, b),
                x,
            ),
{
    let total = s.options.buckets;
    let ub = scope_bucket_updates(place, s, u, b);
    let ms0 = s.meta->Value_0.packs@[b]@;
    let ps0 = (s.packs->Value_0)@[b]@;
    let ms1 = after.meta->Value_0.packs@[b]@;
    let ps1 = (after.packs->Value_0)@[b]@;
    let old_b = bucket_items(ps0);
    let new_b = bucket_items(ps1);
    lemma_all_items_zipped(ms0, ps0);
    lemma_all_items_zipped(ms1, ps1);
    lemma_bucket_distinct(rule, place, s, b);
    assert(bucket_done(rule, place, s, u, b, after.meta->Value_0.packs@[b], (after.packs->Value_0)@[b]));
    if ub.len() == 0 {
        assert(update_keys(ub) =~= Seq::<Seq<u8>>::empty());
        assert(inserted_items(ub) =~= Seq::<(Seq<u8>, Seq<u8>)>::empty());
        assert(ps1 == ps0);
        assert forall|i: int| 0 <= i < ps1.len() implies pack_wf(#[trigger] ps1[i]) by {
            assert(pack_wf((s.packs->Value_0)@[b]@[i]));
        }
    } else {
        let pairs0 = scope_pairs(s, b);
        let pairs1 = zipped(ms1, ps1);
        let k = kept_pairs(rule, place, s, u, b).len() as int;
        assert forall|j: int| 0 <= j < pairs0.len() implies pack_wf(#[trigger] pairs0[j].1) by {
            assert(pack_wf((s.packs->Value_0)@[b]@[j]));
        }
        lemma_inserted_filter(rule, place, u, total, b);
        lemma_filter_no_dup(update_keys(u), key_in(place, b));
        assert(scope_pairs(after, b) == pairs1);
        lemma_update_outcome_law(
            rule,
            s.options.max_pack_size as int,
            crate::scope_update::bucket_dir(s.path@, b),
            pairs0,
            ub,
            pairs1.take(k),
            pairs1.skip(k),
            crate::scope_update::dropped_files(rule, place, s, u, b),
        );
        assert(pairs1.take(k) + pairs1.skip(k) =~= pairs1);
        lemma_all_items_concat(pairs1.take(k), pairs1.skip(k));
        assert forall|i: int| 0 <= i < ps1.len() implies pack_wf(#[trigger] ps1[i]) by {
            assert(pairs1[i].1 == ps1[i]);
            if i < k {
                assert(pairs1.take(k)[i] == pairs1[i]);
            } else {
                assert(pairs1.skip(k)[i - k] == pairs1[i]);
            }
        }
    }
}

/// Updating a well-formed scope applies the updates to its items: afterwards
/// it holds exactly the old items whose keys no update touches and the items
/// the updates set; the scope stays well-formed, keys stay distinct and each
/// stays in its bucket.
pub proof fn lemma_scope_update_law(
    rule: SizeRule,
    place: spec_fn(Seq<u8>) -> int,
    s: PackScope,
    u: Seq<(Seq<u8>, Option<Seq<u8>>)>,
    after: PackScope,
)
    requires
        scope_wf(place, s),
        update_keys(u).no_duplicates(),
        forall|b: int|
            0 <= b < s.options.buckets ==> update_limits_ok(
                rule,
                #[trigger] scope_pairs(s, b),
                scope_bucket_updates(place, s, u, b),
                s.options.max_pack_size as int,
            ),
        scope_update_outcome(rule, place, s, u, after),
    ensures
        scope_wf(place, after),
        forall|x: (Seq<u8>, Seq<u8>)|
            #![trigger scope_items(after).contains(x)]
            scope_items(after).contains(x) <==> applied(scope_items(s), u, x),
{
    let total = s.options.buckets;
    let bs0 = (s.packs->Value_0)@;
    let bs1 = (after.packs->Value_0)@;
    assert forall|b: int| 0 <= b < total implies {
        &&& forall|i: int| 0 <= i < bs1[b]@.len() ==> pack_wf(#[trigger] bs1[b]@[i])
        &&& keys_distinct(bucket_items(bs1[b]@))
        &&& forall|x: (Seq<u8>, Seq<u8>)|
            #![trigger bucket_items(bs1[b]@).contains(x)]
            bucket_items(bs1[b]@).contains(x) <==> applied(
                bucket_items(bs0[b]@),
                scope_bucket_updates(place, s, u, b),
                x,
            )
    } by {
        lemma_bucket_law(rule, place, s, u, after, b);
    }
    // every key stays in its bucket
    assert forall|b: int, x: (Seq<u8>, Seq<u8>)|
        0 <= b < total && #[trigger] bucket_items(bs1[b]@).contains(x) implies place(x.0) == b by {
        let ub = scope_bucket_updates(place, s, u, b);
        assert(applied(bucket_items(bs0[b]@), ub, x));
        if !bucket_items(bs0[b]@).contains(x) {
            lemma_inserted_filter(rule, place, u, total, b);
            let g = item_in(place, b);
            assert(inserted_items(u).filter(g).contains(x));
            let i = choose|i: int| 0 <= i < inserted_items(u).filter(g).len() && inserted_items(u).filter(g)[i] == x;
            inserted_items(u).lemma_filter_pred(g, i);
        }
    }
    assert forall|b: int, i: int|
        0 <= b < total && 0 <= i < bs1[b]@.len() implies pack_wf(#[trigger] bs1[b]@[i]) by {
        assert(forall|i2: int| 0 <= i2 < bs1[b]@.len() ==> pack_wf(#[trigger] bs1[b]@[i2]));
    }
    // keys stay distinct across buckets
    assert forall|k: Seq<u8>| #[trigger] kc(scope_items(after), k) <= 1 by {
        lemma_kc_buckets(rule, place, bs1, total, k);
        let bk = place(k);
        if 0 <= bk < bs1.len() {
            lemma_kc_distinct(bucket_items(bs1[bk]@));
            assert(keys_distinct(bucket_items(bs1[bk]@)));
        }
    }
    lemma_kc_distinct(scope_items(after));
    // and hold the old items with the updates applied
    assert forall|x: (Seq<u8>, Seq<u8>)| #![trigger scope_items(after).contains(x)]
        scope_items(after).contains(x) <==> applied(scope_items(s), u, x) by {
        lemma_buckets_contains(bs1, x);
        lemma_buckets_contains(bs0, x);
        let bx = place(x.0);
        lemma_inserted_filter(rule, place, u, total, bx);
        let g = item_in(place, bx);
        let h = key_in(place, bx);
        if scope_items(after).contains(x) {
            let b = choose|b: int| 0 <= b < bs1.len() && #[trigger] bucket_items(bs1[b]@).contains(x);
            assert(bx == b);
            let ub = scope_bucket_updates(place, s, u, b);
            assert(applied(bucket_items(bs0[b]@), ub, x));
            if bucket_items(bs0[b]@).contains(x) && !update_keys(ub).contains(x.0) {
                assert(scope_items(s).contains(x));
                if update_keys(u).contains(x.0) {
                    let i = choose|i: int| 0 <= i < update_keys(u).len() && update_keys(u)[i] == x.0;
                    update_keys(u).lemma_filter_contains(h, i);
                }
            } else {
                assert(inserted_items(ub).contains(x));
                inserted_items(u).lemma_filter_contains_rev(g, x);
            }
        }
        if applied(scope_items(s), u, x) {
            if scope_items(s).contains(x) && !update_keys(u).contains(x.0) {
                let b = choose|b: int| 0 <= b < bs0.len() && #[trigger] bucket_items(bs0[b]@).contains(x);
                assert(bx == b);
                if update_keys(scope_bucket_updates(place, s, u, b)).contains(x.0) {
                    update_keys(u).lemma_filter_contains_rev(h, x.0);
                }
                assert(applied(bucket_items(bs0[b]@), scope_bucket_updates(place, s, u, b), x));
                assert(bucket_items(bs1[b]@).contains(x));
            } else {
                assert(inserted_items(u).contains(x));
                let i = choose|i: int| 0 <= i < inserted_items(u).len() && inserted_items(u)[i] == x;
                inserted_items(u).lemma_filter_contains(g, i);
                assert(0 <= place(x.0) < total);
                assert(applied(bucket_items(bs0[bx]@), scope_bucket_updates(place, s, u, bx), x));
                assert(bucket_items(bs1[bx]@).contains(x));
            }
        }
    }
}

/// Whether every item of a scope lies in the bucket that `place` gives its key.
pub open spec fn placed_by(place: spec_fn(Seq<u8>) -> int, s: PackScope) -> bool {
    forall|b: int, x: (Seq<u8>, Seq<u8>)|
        0 <= b < s.options.buckets && #[trigger] bucket_items((s.packs->Value_0)@[b]@).contains(
            x,
        ) ==> place(x.0) == b
}

/// A scope whose items an update under the first strategy can work on: its
/// shape is sound, every pack is read with as many values as keys, and no key
/// occurs twice.
pub open spec fn scope_sound(s: PackScope) -> bool {
    &&& scope_shape_ok(s)
    &&& forall|b: int, i: int|
        0 <= b < s.options.buckets && 0 <= i < (s.packs->Value_0)@[b]@.len() ==> pack_wf(
            #[trigger] (s.packs->Value_0)@[b]@[i],
        )
    &&& keys_distinct(scope_items(s))
}

/// What an update under the first strategy leaves: the outcome of a placement
/// of the keys into the buckets that, where the keys of the scope are
/// distinct, keeps each key in the bucket that holds it.
pub open spec fn legacy_updated(
    s: PackScope,
    u: Seq<(Seq<u8>, Option<Seq<u8>>)>,
    after: PackScope,
) -> bool {
    exists|place: spec_fn(Seq<u8>) -> int|
        #[trigger] scope_update_outcome(SizeRule::Legacy, place, s, u, after) && place_ok(
            place,
            s.options.buckets as int,
        ) && (keys_distinct(scope_items(s)) ==> placed_by(place, s))
}

proof fn lemma_kc_bucket_le(bs: Seq<Vec<Pack>>, b: int, k: Seq<u8>)
    requires
        0 <= b < bs.len(),
    ensures
        kc(bucket_items(bs[b]@), k) <= kc(buckets_items(bs), k),
    decreases bs.len(),
{
    let n = bs.len() - 1;
    lemma_kc_concat(buckets_items(bs.drop_last()), bucket_items(bs.last()@), k);
    if b < n {
        lemma_kc_bucket_le(bs.drop_last(), b, k);
        assert(bs.drop_last()[b] == bs[b]);
    }
}

proof fn lemma_kc_two_buckets(bs: Seq<Vec<Pack>>, b1: int, b2: int, k: Seq<u8>)
    requires
        0 <= b1 < b2 < bs.len(),
    ensures
        kc(bucket_items(bs[b1]@), k) + kc(bucket_items(bs[b2]@), k) <= kc(buckets_items(bs), k),
    decreases bs.len(),
{
    let n = bs.len() - 1;
    lemma_kc_concat(buckets_items(bs.drop_last()), bucket_items(bs.last()@), k);
    assert(bs.drop_last()[b1] == bs[b1]);
    if b2 == n {
        lemma_kc_bucket_le(bs.drop_last(), b1, k);
    } else {
        assert(bs.drop_last()[b2] == bs[b2]);
        lemma_kc_two_buckets(bs.drop_last(), b1, b2, k);
    }
}

/// In a scope whose keys are distinct, no key is held by two buckets.
pub proof fn lemma_one_bucket_per_key(s: PackScope, b1: int, b2: int, k: Seq<u8>)
    requires
        s.packs is Value,
        keys_distinct(scope_items(s)),
        0 <= b1 < (s.packs->Value_0)@.len(),
        0 <= b2 < (s.packs->Value_0)@.len(),
        holds_key((s.packs->Value_0)@[b1]@, k),
        holds_key((s.packs->Value_0)@[b2]@, k),
    ensures
        b1 == b2,
{
    let bs = (s.packs->Value_0)@;
    if b1 != b2 {
        let x1 = choose|x: (Seq<u8>, Seq<u8>)| #[trigger] bucket_items(bs[b1]@).contains(x) && x.0 == k;
        let x2 = choose|x: (Seq<u8>, Seq<u8>)| #[trigger] bucket_items(bs[b2]@).contains(x) && x.0 == k;
        lemma_kc_contains(bucket_items(bs[b1]@), x1);
        lemma_kc_contains(bucket_items(bs[b2]@), x2);
        if b1 < b2 {
            lemma_kc_two_buckets(bs, b1, b2, k);
        } else {
            lemma_kc_two_buckets(bs, b2, b1, k);
        }
        lemma_kc_distinct(scope_items(s));
        assert(kc(scope_items(s), k) <= 1);
    }
}

/// Updates under the first strategy apply to what a scope holds, call after
/// call: a sound scope afterwards holds exactly its old items whose keys no
/// update names and the items that the updates set, and is sound again, so a
/// later update of a key finds the item that an earlier one stored, wherever
/// the hashes put it.
pub proof fn lemma_legacy_update_law(
    s: PackScope,
    u: Seq<(Seq<u8>, Option<Seq<u8>>)>,
    after: PackScope,
)
    requires
        scope_sound(s),
        update_keys(u).no_duplicates(),
        legacy_updated(s, u, after),
    ensures
        scope_sound(after),
        forall|x: (Seq<u8>, Seq<u8>)|
            #![trigger scope_items(after).contains(x)]
            scope_items(after).contains(x) <==> applied(scope_items(s), u, x),
{
    let place = choose|place: spec_fn(Seq<u8>) -> int|
        #[trigger] scope_update_outcome(SizeRule::Legacy, place, s, u, after) && place_ok(
            place,
            s.options.buckets as int,
        ) && (keys_distinct(scope_items(s)) ==> placed_by(place, s));
    assert(scope_wf(place, s));
    assert forall|b: int| 0 <= b < s.options.buckets implies update_limits_ok(
        SizeRule::Legacy,
        #[trigger] scope_pairs(s, b),
        scope_bucket_updates(place, s, u, b),
        s.options.max_pack_size as int,
    ) by {
        let ub = scope_bucket_updates(place, s, u, b);
        let pairs = scope_pairs(s, b);
        let max = s.options.max_pack_size as int;
        lemma_legacy_no_stall(
            poured_items(pairs, removed_flags(SizeRule::Legacy, pairs, ub, max), update_keys(ub))
                + inserted_items(ub),
            max,
        );
    }
    lemma_scope_update_law(SizeRule::Legacy, place, s, u, after);
}

/// Pack files are not removed: after an update, no file on the removal list
/// is the file of a pack that the update left in place in a bucket it
/// changed, kept or new.
pub proof fn lemma_update_keeps_live_files(
    rule: SizeRule,
    place: spec_fn(Seq<u8>) -> int,
    s: PackScope,
    u: Seq<(Seq<u8>, Option<Seq<u8>>)>,
    after: PackScope,
)
    requires
        scope_update_outcome(rule, place, s, u, after),
    ensures
        forall|i: int|
            0 <= i < after.removed@.len() ==> !all_placed(
                rule,
                place,
                s,
                after.meta->Value_0.packs@,
                after.packs->Value_0@,
                u,
                s.options.buckets as int,
            ).map_values(|x: String| x@).contains((#[trigger] after.removed@[i])@),
{
    let placed = all_placed(
        rule,
        place,
        s,
        after.meta->Value_0.packs@,
        after.packs->Value_0@,
        u,
        s.options.buckets as int,
    );
    let all = s.removed@ + all_dropped(rule, place, s, u, s.options.buckets as int);
    assert forall|i: int| 0 <= i < after.removed@.len() implies !placed.map_values(
        |x: String| x@,
    ).contains((#[trigger] after.removed@[i])@) by {
        all.lemma_filter_pred(|f: String| keep_removed(placed, f), i);
    }
}

} // verus!
