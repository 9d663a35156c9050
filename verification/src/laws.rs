use vstd::prelude::*;

use crate::meta::PackFileMeta;
use crate::model::keys_distinct;
use crate::pack::{Pack, pack_keys, pack_contents, pack_items};
use crate::update::{
    all_items, select_by, poured_items, inserted_items, update_keys, owner, removed_flags,
    is_removed, update_outcome, update_limits_ok, lemma_poured_in_all,
};
use crate::packing::{
    SizeRule, pack_layout, packing_queue, greedy_batches, greedy_take, big_suffix_len, item_weight,
    created_pack, created_packs, lemma_greedy_take_bound, is_big, no_stall, value_len_sorted,
    lemma_prefix_fits, lemma_big_suffix_bound, lemma_no_stall_subset, lemma_contains_transfer,
};

verus! {

broadcast use vstd::seq_lib::group_to_multiset_ensures;

/// How many items of `s` have the key `k`.
pub open spec fn kc(s: Seq<(Seq<u8>, Seq<u8>)>, k: Seq<u8>) -> nat
    decreases s.len(),
{
    if s.len() == 0 {
        0
    } else {
        kc(s.drop_last(), k) + (if s.last().0 == k {
            1nat
        } else {
            0nat
        })
    }
}

pub proof fn lemma_kc_concat(a: Seq<(Seq<u8>, Seq<u8>)>, b: Seq<(Seq<u8>, Seq<u8>)>, k: Seq<u8>)
    ensures
        kc(a + b, k) == kc(a, k) + kc(b, k),
    decreases b.len(),
{
    if b.len() == 0 {
        assert(a + b =~= a);
    } else {
        lemma_kc_concat(a, b.drop_last(), k);
        assert((a + b).drop_last() =~= a + b.drop_last());
        assert((a + b).last() == b.last());
    }
}

pub proof fn lemma_kc_remove(s: Seq<(Seq<u8>, Seq<u8>)>, i: int, k: Seq<u8>)
    requires
        0 <= i < s.len(),
    ensures
        kc(s, k) == kc(s.remove(i), k) + (if s[i].0 == k {
            1nat
        } else {
            0nat
        }),
{
    let a = s.take(i);
    let b = s.skip(i + 1);
    assert(s =~= a + seq![s[i]] + b);
    assert(s.remove(i) =~= a + b);
    lemma_kc_concat(a + seq![s[i]], b, k);
    lemma_kc_concat(a, seq![s[i]], k);
    lemma_kc_concat(a, b, k);
    let one = seq![s[i]];
    assert(one.drop_last() =~= Seq::<(Seq<u8>, Seq<u8>)>::empty());
    assert(kc(one.drop_last(), k) == 0);
    assert(one.last() == s[i]);
    assert(kc(one, k) == (if s[i].0 == k {
        1nat
    } else {
        0nat
    }));
}

/// Key counts do not depend on the order of the items.
pub proof fn lemma_kc_perm(p: Seq<(Seq<u8>, Seq<u8>)>, q: Seq<(Seq<u8>, Seq<u8>)>, k: Seq<u8>)
    requires
        p.to_multiset() == q.to_multiset(),
    ensures
        kc(p, k) == kc(q, k),
    decreases p.len(),
{
    broadcast use vstd::multiset::group_multiset_axioms;

    if p.len() == 0 {
        assert(q.to_multiset().len() == 0);
        assert(q.len() == 0);
    } else {
        let x = p.last();
        let p1 = p.drop_last();
        assert(p1.push(x) =~= p);
        assert(p.to_multiset().count(x) > 0);
        assert(q.contains(x));
        let i = choose|i: int| 0 <= i < q.len() && q[i] == x;
        let q1 = q.remove(i);
        assert(q1.to_multiset() =~= p1.to_multiset());
        lemma_kc_perm(p1, q1, k);
        lemma_kc_remove(q, i, k);
    }
}

pub proof fn lemma_kc_contains(s: Seq<(Seq<u8>, Seq<u8>)>, x: (Seq<u8>, Seq<u8>))
    requires
        s.contains(x),
    ensures
        kc(s, x.0) >= 1,
{
    let i = choose|i: int| 0 <= i < s.len() && s[i] == x;
    lemma_kc_remove(s, i, x.0);
}

/// Distinct keys are keys that each occur at most once.
pub proof fn lemma_kc_distinct(s: Seq<(Seq<u8>, Seq<u8>)>)
    ensures
        keys_distinct(s) <==> forall|k: Seq<u8>| #[trigger] kc(s, k) <= 1,
    decreases s.len(),
{
    if s.len() > 0 {
        let s1 = s.drop_last();
        lemma_kc_distinct(s1);
        if keys_distinct(s) {
            assert(keys_distinct(s1));
            assert forall|k: Seq<u8>| #[trigger] kc(s, k) <= 1 by {
                if s.last().0 == k && kc(s1, k) >= 1 {
                    if forall|j: int| 0 <= j < s1.len() ==> s1[j].0 != k {
                        lemma_kc_none(s1, k);
                    }
                    let j = choose|j: int| 0 <= j < s1.len() && s1[j].0 == k;
                    assert(s[j].0 == s[s.len() - 1].0);
                }
            }
        }
        if forall|k: Seq<u8>| #[trigger] kc(s, k) <= 1 {
            assert forall|k: Seq<u8>| #[trigger] kc(s1, k) <= 1 by {
                assert(kc(s, k) <= 1);
            }
            assert forall|i: int, j: int|
                0 <= i < s.len() && 0 <= j < s.len() && i != j implies s[i].0 != s[j].0 by {
                if i < s1.len() && j < s1.len() {
                    assert(s1[i] == s[i] && s1[j] == s[j]);
                } else {
                    let (a, b) = if i == s.len() - 1 {
                        (j, i)
                    } else {
                        (i, j)
                    };
                    if s[a].0 == s[b].0 {
                        assert(s1[a] == s[a]);
                        assert(s1.contains(s1[a]));
                        lemma_kc_contains(s1, s1[a]);
                        assert(kc(s, s[b].0) >= 2);
                    }
                }
            }
        }
    }
}

pub proof fn lemma_kc_none(s: Seq<(Seq<u8>, Seq<u8>)>, k: Seq<u8>)
    requires
        forall|j: int| 0 <= j < s.len() ==> s[j].0 != k,
    ensures
        kc(s, k) == 0,
    decreases s.len(),
{
    if s.len() > 0 {
        lemma_kc_none(s.drop_last(), k);
    }
}

/// Filtering by key removes all or none of the items with a given key.
pub proof fn lemma_kc_filter(s: Seq<(Seq<u8>, Seq<u8>)>, ukeys: Seq<Seq<u8>>, k: Seq<u8>)
    ensures
        kc(s.filter(|it: (Seq<u8>, Seq<u8>)| !ukeys.contains(it.0)), k) == (if ukeys.contains(k) {
            0
        } else {
            kc(s, k)
        }),
    decreases s.len(),
{
    let f = |it: (Seq<u8>, Seq<u8>)| !ukeys.contains(it.0);
    if s.len() == 0 {
        assert(s.filter(f) =~= Seq::<(Seq<u8>, Seq<u8>)>::empty());
    } else {
        let s1 = s.drop_last();
        lemma_kc_filter(s1, ukeys, k);
        assert(s1.push(s.last()) =~= s);
        s1.lemma_filter_push(s.last(), f);
        if f(s.last()) {
            assert(s1.filter(f).push(s.last()).drop_last() =~= s1.filter(f));
        }
    }
}

/// A pack whose keys and values are read and agree in number.
pub open spec fn pack_wf(p: Pack) -> bool {
    &&& p.keys is Value
    &&& p.contents is Value
    &&& pack_keys(p).len() == pack_contents(p).len()
}

pub open spec fn packs_wf(packs: Seq<(PackFileMeta, Pack)>) -> bool {
    forall|j: int| 0 <= j < packs.len() ==> pack_wf(#[trigger] packs[j].1)
}

pub proof fn lemma_all_items_push(packs: Seq<(PackFileMeta, Pack)>, e: (PackFileMeta, Pack))
    ensures
        all_items(packs.push(e)) == all_items(packs) + pack_items(e.1),
{
    assert(packs.push(e).drop_last() =~= packs);
}

/// The items of all packs are those of the packs a flag keeps and of those it
/// drops.
pub proof fn lemma_split_ms(packs: Seq<(PackFileMeta, Pack)>, flags: Seq<bool>)
    requires
        packs.len() == flags.len(),
    ensures
        all_items(packs).to_multiset() == (all_items(select_by(packs, flags, false)) + all_items(
            select_by(packs, flags, true),
        )).to_multiset(),
    decreases packs.len(),
{
    broadcast use vstd::multiset::group_multiset_axioms;
    broadcast use vstd::seq_lib::lemma_multiset_commutative;

    if packs.len() == 0 {
        assert(select_by(packs, flags, false) =~= Seq::<(PackFileMeta, Pack)>::empty());
        assert(select_by(packs, flags, true) =~= Seq::<(PackFileMeta, Pack)>::empty());
        assert(all_items(Seq::<(PackFileMeta, Pack)>::empty()) =~= Seq::<(Seq<u8>, Seq<u8>)>::empty());
        assert(Seq::<(Seq<u8>, Seq<u8>)>::empty() + Seq::<(Seq<u8>, Seq<u8>)>::empty() =~= Seq::<(Seq<u8>, Seq<u8>)>::empty());
    } else {
        let p1 = packs.drop_last();
        let f1 = flags.drop_last();
        let e = packs.last();
        lemma_split_ms(p1, f1);
        let a = all_items(select_by(p1, f1, false));
        let b = all_items(select_by(p1, f1, true));
        let last = pack_items(e.1);
        assert(all_items(packs) == all_items(p1) + last);
        if flags[packs.len() - 1] {
            assert(select_by(packs, flags, true) == select_by(p1, f1, true).push(e));
            assert(select_by(packs, flags, false) == select_by(p1, f1, false));
            lemma_all_items_push(select_by(p1, f1, true), e);
            assert((a + (b + last)).to_multiset() =~= (a + b).to_multiset().add(last.to_multiset()));
        } else {
            assert(select_by(packs, flags, false) == select_by(p1, f1, false).push(e));
            assert(select_by(packs, flags, true) == select_by(p1, f1, true));
            lemma_all_items_push(select_by(p1, f1, false), e);
            assert(((a + last) + b).to_multiset() =~= (a + b).to_multiset().add(last.to_multiset()));
        }
    }
}

/// The items that removed packs give back are their items with untouched keys.
pub proof fn lemma_poured_filter(
    packs: Seq<(PackFileMeta, Pack)>,
    flags: Seq<bool>,
    ukeys: Seq<Seq<u8>>,
)
    requires
        packs.len() == flags.len(),
    ensures
        poured_items(packs, flags, ukeys) == all_items(select_by(packs, flags, true)).filter(
            |it: (Seq<u8>, Seq<u8>)| !ukeys.contains(it.0),
        ),
    decreases packs.len(),
{
    let f = |it: (Seq<u8>, Seq<u8>)| !ukeys.contains(it.0);
    if packs.len() == 0 {
        assert(select_by(packs, flags, true) =~= Seq::<(PackFileMeta, Pack)>::empty());
        assert(all_items(Seq::<(PackFileMeta, Pack)>::empty()).filter(f) =~= Seq::<(Seq<u8>, Seq<u8>)>::empty());
    } else {
        let p1 = packs.drop_last();
        let f1 = flags.drop_last();
        let e = packs.last();
        lemma_poured_filter(p1, f1, ukeys);
        if flags[packs.len() - 1] {
            lemma_all_items_push(select_by(p1, f1, true), e);
            Seq::filter_distributes_over_add(
                all_items(select_by(p1, f1, true)),
                pack_items(e.1),
                f,
            );
        }
    }
}

/// A key counted in the items of the packs a flag selects is counted in one
/// of those packs.
pub proof fn lemma_sel_index(
    packs: Seq<(PackFileMeta, Pack)>,
    flags: Seq<bool>,
    want: bool,
    k: Seq<u8>,
) -> (j: int)
    requires
        packs.len() == flags.len(),
        kc(all_items(select_by(packs, flags, want)), k) > 0,
    ensures
        0 <= j < packs.len(),
        flags[j] == want,
        kc(pack_items(packs[j].1), k) > 0,
    decreases packs.len(),
{
    if packs.len() == 0 {
        assert(select_by(packs, flags, want) =~= Seq::<(PackFileMeta, Pack)>::empty());
        assert(all_items(Seq::<(PackFileMeta, Pack)>::empty()) =~= Seq::<(Seq<u8>, Seq<u8>)>::empty());
        0
    } else {
        let p1 = packs.drop_last();
        let f1 = flags.drop_last();
        let e = packs.last();
        if flags[packs.len() - 1] == want {
            lemma_all_items_push(select_by(p1, f1, want), e);
            lemma_kc_concat(all_items(select_by(p1, f1, want)), pack_items(e.1), k);
            if kc(pack_items(e.1), k) > 0 {
                packs.len() - 1
            } else {
                let j = lemma_sel_index(p1, f1, want, k);
                j
            }
        } else {
            let j = lemma_sel_index(p1, f1, want, k);
            j
        }
    }
}

/// Each pack's items are counted in the items of all packs.
pub proof fn lemma_pack_counted(packs: Seq<(PackFileMeta, Pack)>, j: int, j2: int, k: Seq<u8>)
    requires
        0 <= j < packs.len(),
        j < j2 < packs.len() || j2 == -1,
    ensures
        kc(all_items(packs), k) >= kc(pack_items(packs[j].1), k) + (if j2 == -1 {
            0
        } else {
            kc(pack_items(packs[j2].1), k)
        }),
    decreases packs.len(),
{
    let p1 = packs.drop_last();
    let last = pack_items(packs.last().1);
    assert(all_items(packs) == all_items(p1) + last);
    lemma_kc_concat(all_items(p1), last, k);
    if j2 == packs.len() - 1 {
        lemma_pack_counted(p1, j, -1, k);
    } else if j == packs.len() - 1 {
    } else {
        lemma_pack_counted(p1, j, j2, k);
    }
}

/// The owner of a key is the last pack whose keys hold it.
pub proof fn lemma_owner(packs: Seq<(PackFileMeta, Pack)>, k: Seq<u8>, j: int)
    requires
        0 <= j < packs.len(),
        pack_keys(packs[j].1).contains(k),
    ensures
        j <= owner(packs, k) < packs.len(),
        pack_keys(packs[owner(packs, k)].1).contains(k),
    decreases packs.len(),
{
    if !pack_keys(packs.last().1).contains(k) {
        assert(j < packs.len() - 1);
        assert(packs.drop_last()[j] == packs[j]);
        lemma_owner(packs.drop_last(), k, j);
    }
}

/// In a pack whose keys and values agree, every key has an item.
pub proof fn lemma_wf_key_counted(p: Pack, k: Seq<u8>)
    requires
        pack_wf(p),
        pack_keys(p).contains(k),
    ensures
        kc(pack_items(p), k) >= 1,
{
    let i = choose|i: int| 0 <= i < pack_keys(p).len() && pack_keys(p)[i] == k;
    assert(pack_items(p)[i].0 == k);
    assert(pack_items(p).contains(pack_items(p)[i]));
    lemma_kc_contains(pack_items(p), pack_items(p)[i]);
}

/// A new pack holds the items of its batch.
pub proof fn lemma_created_items(e: (PackFileMeta, Pack), dir: Seq<char>, batch: Seq<(Seq<u8>, Seq<u8>)>, rule: SizeRule)
    requires
        created_pack(e, dir, batch, rule),
    ensures
        pack_items(e.1) == batch,
        pack_wf(e.1),
{
    assert(pack_items(e.1) =~= batch);
}

/// The items of a sequence of packs, pack after pack.
pub open spec fn packs_items(s: Seq<(PackFileMeta, Pack)>) -> Seq<Seq<(Seq<u8>, Seq<u8>)>> {
    s.map_values(|e: (PackFileMeta, Pack)| pack_items(e.1))
}

pub proof fn lemma_all_items_flatten(s: Seq<(PackFileMeta, Pack)>)
    ensures
        all_items(s) == packs_items(s).flatten(),
    decreases s.len(),
{
    if s.len() > 0 {
        lemma_all_items_flatten(s.drop_last());
        assert(packs_items(s) =~= packs_items(s.drop_last()).push(pack_items(s.last().1)));
        packs_items(s.drop_last()).lemma_flatten_push(pack_items(s.last().1));
    }
}

/// New packs hold, in order, the items of the layout.
pub proof fn lemma_created_all_items(
    out: Seq<(PackFileMeta, Pack)>,
    dir: Seq<char>,
    layout: Seq<Seq<(Seq<u8>, Seq<u8>)>>,
    rule: SizeRule,
)
    requires
        created_packs(out, dir, layout, rule),
    ensures
        all_items(out) == layout.flatten(),
        packs_wf(out),
{
    lemma_all_items_flatten(out);
    assert forall|i: int| 0 <= i < out.len() implies #[trigger] packs_items(out)[i] == layout[i] by {
        lemma_created_items(out[i], dir, layout[i], rule);
    }
    assert(packs_items(out) =~= layout);
    assert forall|j: int| 0 <= j < out.len() implies pack_wf(#[trigger] out[j].1) by {
        lemma_created_items(out[j], dir, layout[j], rule);
    }
}

/// Greedy packing puts every item in a pack when each fits on its own.
proof fn lemma_greedy_flatten(rule: SizeRule, q: Seq<(Seq<u8>, Seq<u8>)>, max: int)
    requires
        forall|a: (Seq<u8>, Seq<u8>)| q.contains(a) ==> #[trigger] item_weight(rule, a) <= max,
    ensures
        greedy_batches(rule, q, max).flatten() == q,
    decreases q.len(),
{
    if q.len() == 0 {
        assert(greedy_batches(rule, q, max) =~= Seq::<Seq<(Seq<u8>, Seq<u8>)>>::empty());
    } else {
        let t = greedy_take(rule, q, max, 0);
        assert(q.contains(q[0]));
        lemma_greedy_take_bound(rule, q, max, 0);
        assert(t >= 1) by {
            assert(0 + item_weight(rule, q[0]) <= max);
            lemma_greedy_take_bound(rule, q.drop_first(), max, item_weight(rule, q[0]));
        }
        let rest = q.skip(t);
        assert forall|a: (Seq<u8>, Seq<u8>)| rest.contains(a) implies #[trigger] item_weight(rule, a) <= max by {
            let i = choose|i: int| 0 <= i < rest.len() && rest[i] == a;
            assert(q[t + i] == a);
            assert(q.contains(a));
        }
        lemma_greedy_flatten(rule, rest, max);
        let b = greedy_batches(rule, q, max);
        assert(b == seq![q.take(t)] + greedy_batches(rule, rest, max));
        vstd::seq_lib::lemma_flatten_concat(seq![q.take(t)], greedy_batches(rule, rest, max));
        seq![q.take(t)].lemma_flatten_one_element();
        assert(q.take(t) + rest =~= q);
    }
}

proof fn lemma_big_suffix_shape(rule: SizeRule, p: Seq<(Seq<u8>, Seq<u8>)>, max: int)
    ensures
        big_suffix_len(rule, p, max) <= p.len(),
        big_suffix_len(rule, p, max) < p.len() ==> !is_big(
            rule,
            p[p.len() - 1 - big_suffix_len(rule, p, max)],
            max,
        ),
    decreases p.len(),
{
    lemma_big_suffix_bound(rule, p, max);
    if p.len() > 0 && is_big(rule, p.last(), max) {
        let p1 = p.drop_last();
        lemma_big_suffix_shape(rule, p1, max);
        let c1 = big_suffix_len(rule, p1, max);
        if c1 < p1.len() {
            assert(p[p.len() - 1 - (c1 + 1)] == p1[p1.len() - 1 - c1]);
        }
    }
}

proof fn lemma_singles_flatten(p: Seq<(Seq<u8>, Seq<u8>)>, c: int)
    requires
        0 <= c <= p.len(),
    ensures
        Seq::new(c as nat, |i: int| seq![p[p.len() - 1 - i]]).flatten() =~= p.skip(
            p.len() - c,
        ).reverse(),
    decreases c,
{
    let s = Seq::new(c as nat, |i: int| seq![p[p.len() - 1 - i]]);
    if c == 0 {
        assert(s =~= Seq::<Seq<(Seq<u8>, Seq<u8>)>>::empty());
        assert(p.skip(p.len() - c) =~= Seq::<(Seq<u8>, Seq<u8>)>::empty());
    } else {
        let s1 = Seq::new((c - 1) as nat, |i: int| seq![p[p.len() - 1 - i]]);
        lemma_singles_flatten(p, c - 1);
        assert(s =~= s1.push(seq![p[p.len() - c]]));
        s1.lemma_flatten_push(seq![p[p.len() - c]]);
        assert(p.skip(p.len() - c).reverse() =~= p.skip(p.len() - (c - 1)).reverse().push(
            p[p.len() - c],
        ));
    }
}

/// The packs of a layout hold exactly the items laid out.
pub proof fn lemma_layout_flatten(rule: SizeRule, p: Seq<(Seq<u8>, Seq<u8>)>, max: int)
    requires
        value_len_sorted(p),
        no_stall(rule, p, max),
        max >= 0,
    ensures
        pack_layout(rule, p, max).flatten().to_multiset() == p.to_multiset(),
{
    broadcast use vstd::seq_lib::lemma_multiset_commutative;

    let c = big_suffix_len(rule, p, max) as int;
    let m = p.len() - c;
    lemma_big_suffix_shape(rule, p, max);
    lemma_prefix_fits(rule, p, m, max);
    let q = packing_queue(rule, p, m);
    assert forall|a: (Seq<u8>, Seq<u8>)| q.contains(a) implies #[trigger] item_weight(rule, a)
        <= max by {
        let i = choose|i: int| 0 <= i < q.len() && q[i] == a;
        if rule is Split {
            assert(p.take(m).contains(a));
        } else {
            assert(p.take(m)[p.take(m).len() - 1 - i] == a);
            assert(p.take(m).contains(a));
        }
    }
    lemma_greedy_flatten(rule, q, max);
    assert(q.to_multiset() == p.take(m).to_multiset()) by {
        p.take(m).lemma_reverse_to_multiset();
    }
    lemma_singles_flatten(p, c);
    let singles = Seq::new(c as nat, |i: int| seq![p[p.len() - 1 - i]]);
    assert(pack_layout(rule, p, max) == singles + greedy_batches(rule, q, max));
    vstd::seq_lib::lemma_flatten_concat(singles, greedy_batches(rule, q, max));
    assert((singles.flatten() + q).to_multiset() =~= singles.flatten().to_multiset().add(q.to_multiset()));
    assert((p.skip(m).reverse() + p.take(m)).to_multiset() =~= p.skip(m).reverse().to_multiset().add(p.take(m).to_multiset()));
    p.skip(m).lemma_reverse_to_multiset();
    assert(p.skip(m) + p.take(m) =~= p.skip(m) + p.take(m));
    assert(p.take(m) + p.skip(m) =~= p);
    assert((p.skip(m).reverse() + p.take(m)).to_multiset() =~= p.skip(m).reverse().to_multiset().add(p.take(m).to_multiset()));
    assert((p.take(m) + p.skip(m)).to_multiset() =~= p.take(m).to_multiset().add(p.skip(m).to_multiset()));
}

pub proof fn lemma_kc_pos(s: Seq<(Seq<u8>, Seq<u8>)>, k: Seq<u8>) -> (i: int)
    requires
        kc(s, k) > 0,
    ensures
        0 <= i < s.len(),
        s[i].0 == k,
{
    if forall|j: int| 0 <= j < s.len() ==> s[j].0 != k {
        lemma_kc_none(s, k);
    }
    choose|j: int| 0 <= j < s.len() && s[j].0 == k
}

/// The items the updates set have the updated keys, each at most once when
/// the updates touch each key once.
pub proof fn lemma_inserted_kc(u: Seq<(Seq<u8>, Option<Seq<u8>>)>, k: Seq<u8>)
    ensures
        !update_keys(u).contains(k) ==> kc(inserted_items(u), k) == 0,
        update_keys(u).no_duplicates() ==> kc(inserted_items(u), k) <= 1,
    decreases u.len(),
{
    if u.len() > 0 {
        let u1 = u.drop_last();
        lemma_inserted_kc(u1, k);
        assert(update_keys(u1) =~= update_keys(u).drop_last());
        if !update_keys(u).contains(k) {
            if update_keys(u1).contains(k) {
                let i = choose|i: int| 0 <= i < update_keys(u1).len() && update_keys(u1)[i] == k;
                assert(update_keys(u)[i] == k);
            }
            assert(update_keys(u)[u.len() - 1] != k);
        }
        if update_keys(u).no_duplicates() {
            match u.last().1 {
                Some(v) => {
                    assert(inserted_items(u) == inserted_items(u1).push((u.last().0, v)));
                    assert(inserted_items(u1).push((u.last().0, v)).drop_last() =~= inserted_items(u1));
                    if u.last().0 == k {
                        if update_keys(u1).contains(k) {
                            let i = choose|i: int| 0 <= i < update_keys(u1).len() && update_keys(u1)[i] == k;
                            assert(update_keys(u)[i] == update_keys(u)[u.len() - 1]);
                        }
                    }
                },
                None => {},
            }
        } else {
            match u.last().1 {
                Some(v) => {
                    assert(inserted_items(u1).push((u.last().0, v)).drop_last() =~= inserted_items(u1));
                },
                None => {},
            }
        }
    }
}

pub proof fn lemma_inserted_keys(u: Seq<(Seq<u8>, Option<Seq<u8>>)>, x: (Seq<u8>, Seq<u8>))
    requires
        inserted_items(u).contains(x),
    ensures
        update_keys(u).contains(x.0),
{
    if !update_keys(u).contains(x.0) {
        lemma_inserted_kc(u, x.0);
        lemma_kc_contains(inserted_items(u), x);
    }
}

/// A pack that stays holds no key that an update touches.
pub proof fn lemma_remain_no_ukeys(
    rule: SizeRule,
    packs: Seq<(PackFileMeta, Pack)>,
    u: Seq<(Seq<u8>, Option<Seq<u8>>)>,
    max: int,
    k: Seq<u8>,
)
    requires
        packs_wf(packs),
        keys_distinct(all_items(packs)),
        update_keys(u).contains(k),
    ensures
        kc(all_items(select_by(packs, removed_flags(rule, packs, u, max), false)), k) == 0,
{
    let flags = removed_flags(rule, packs, u, max);
    if kc(all_items(select_by(packs, flags, false)), k) > 0 {
        let j = lemma_sel_index(packs, flags, false, k);
        let t = lemma_kc_pos(pack_items(packs[j].1), k);
        assert(pack_wf(packs[j].1));
        assert(pack_keys(packs[j].1)[t] == k);
        lemma_owner(packs, k, j);
        let o = owner(packs, k);
        let i = choose|i: int| 0 <= i < update_keys(u).len() && update_keys(u)[i] == k;
        assert(u[i].0 == k);
        if o == j {
            assert(is_removed(rule, packs, u, max, j));
            assert(flags[j]);
        } else {
            assert(pack_wf(packs[o].1));
            lemma_wf_key_counted(packs[o].1, k);
            lemma_pack_counted(packs, j, o, k);
            lemma_kc_distinct(all_items(packs));
            assert(kc(all_items(packs), k) <= 1);
        }
    }
}

pub proof fn lemma_select_from<A>(s: Seq<A>, flags: Seq<bool>, want: bool)
    requires
        s.len() == flags.len(),
    ensures
        forall|i: int|
            0 <= i < select_by(s, flags, want).len() ==> s.contains(
                #[trigger] select_by(s, flags, want)[i],
            ),
    decreases s.len(),
{
    if s.len() > 0 {
        lemma_select_from(s.drop_last(), flags.drop_last(), want);
        let r = select_by(s.drop_last(), flags.drop_last(), want);
        assert forall|i: int| 0 <= i < select_by(s, flags, want).len() implies s.contains(
            #[trigger] select_by(s, flags, want)[i],
        ) by {
            if i < r.len() {
                assert(select_by(s, flags, want)[i] == r[i]);
                assert(s.drop_last().contains(r[i]));
                let k = choose|k: int| 0 <= k < s.drop_last().len() && s.drop_last()[k] == r[i];
                assert(s[k] == r[i]);
            } else {
                assert(select_by(s, flags, want)[i] == s.last());
                assert(s[s.len() - 1] == s.last());
            }
        }
    }
}

/// The contents after the update: the old items whose keys no update touches,
/// and the items that the updates set.
pub open spec fn applied(
    old: Seq<(Seq<u8>, Seq<u8>)>,
    u: Seq<(Seq<u8>, Option<Seq<u8>>)>,
    x: (Seq<u8>, Seq<u8>),
) -> bool {
    (old.contains(x) && !update_keys(u).contains(x.0)) || inserted_items(u).contains(x)
}

/// Updating the packs of one bucket applies the updates to its items, and the
/// keys stay distinct.
pub proof fn lemma_update_packs_law(
    rule: SizeRule,
    max: int,
    dir: Seq<char>,
    packs: Seq<(PackFileMeta, Pack)>,
    u: Seq<(Seq<u8>, Option<Seq<u8>>)>,
    remain: Seq<(PackFileMeta, Pack)>,
    new: Seq<(PackFileMeta, Pack)>,
    p: Seq<(Seq<u8>, Seq<u8>)>,
)
    requires
        packs_wf(packs),
        keys_distinct(all_items(packs)),
        update_keys(u).no_duplicates(),
        remain == select_by(packs, removed_flags(rule, packs, u, max), false),
        value_len_sorted(p),
        no_stall(rule, p, max),
        max >= 0,
        p.to_multiset() == (poured_items(packs, removed_flags(rule, packs, u, max), update_keys(u))
            + inserted_items(u)).to_multiset(),
        created_packs(new, dir, pack_layout(rule, p, max), rule),
    ensures
        packs_wf(remain),
        packs_wf(new),
        keys_distinct(all_items(remain) + all_items(new)),
        forall|x: (Seq<u8>, Seq<u8>)|
            #![trigger (all_items(remain) + all_items(new)).contains(x)]
            (all_items(remain) + all_items(new)).contains(x) <==> applied(all_items(packs), u, x),
{
    broadcast use vstd::seq_lib::lemma_multiset_commutative;
    broadcast use vstd::multiset::group_multiset_axioms;

    let flags = removed_flags(rule, packs, u, max);
    let ukeys = update_keys(u);
    let f = |it: (Seq<u8>, Seq<u8>)| !ukeys.contains(it.0);
    let old = all_items(packs);
    let r_rem = all_items(remain);
    let r_new = all_items(new);
    let sel = all_items(select_by(packs, flags, true));
    let poured = poured_items(packs, flags, ukeys);
    let ins = inserted_items(u);
    let res = r_rem + r_new;
    lemma_created_all_items(new, dir, pack_layout(rule, p, max), rule);
    lemma_layout_flatten(rule, p, max);
    assert(r_new.to_multiset() == (poured + ins).to_multiset());
    lemma_split_ms(packs, flags);
    lemma_poured_filter(packs, flags, ukeys);
    assert(poured == sel.filter(f));
    lemma_select_from(packs, flags, false);
    assert forall|j: int| 0 <= j < remain.len() implies pack_wf(#[trigger] remain[j].1) by {
        assert(packs.contains(remain[j]));
        let i = choose|i: int| 0 <= i < packs.len() && packs[i] == remain[j];
        assert(pack_wf(packs[i].1));
    }
    // keys stay distinct
    lemma_kc_distinct(old);
    assert forall|k: Seq<u8>| #[trigger] kc(res, k) <= 1 by {
        lemma_kc_concat(r_rem, r_new, k);
        lemma_kc_perm(r_new, poured + ins, k);
        lemma_kc_concat(poured, ins, k);
        lemma_kc_perm(old, r_rem + sel, k);
        lemma_kc_concat(r_rem, sel, k);
        lemma_kc_filter(sel, ukeys, k);
        lemma_inserted_kc(u, k);
        assert(kc(old, k) <= 1);
        if ukeys.contains(k) {
            lemma_remain_no_ukeys(rule, packs, u, max, k);
        }
    }
    lemma_kc_distinct(res);
    // and hold what the updates make of the old items
    assert forall|x: (Seq<u8>, Seq<u8>)| #![trigger res.contains(x)] res.contains(x) <==> applied(old, u, x) by {
        assert(res.contains(x) <==> (r_rem.contains(x) || r_new.contains(x))) by {
            if res.contains(x) {
                let i = choose|i: int| 0 <= i < res.len() && res[i] == x;
                if i < r_rem.len() {
                    assert(r_rem[i] == x);
                } else {
                    assert(r_new[i - r_rem.len()] == x);
                }
            }
            if r_rem.contains(x) {
                let i = choose|i: int| 0 <= i < r_rem.len() && r_rem[i] == x;
                assert(res[i] == x);
            }
            if r_new.contains(x) {
                let i = choose|i: int| 0 <= i < r_new.len() && r_new[i] == x;
                assert(res[r_rem.len() + i] == x);
            }
        }
        assert(r_new.contains(x) <==> (poured + ins).contains(x)) by {
            r_new.to_multiset_ensures();
            (poured + ins).to_multiset_ensures();
            assert(r_new.contains(x) <==> r_new.to_multiset().count(x) > 0);
            assert((poured + ins).contains(x) <==> (poured + ins).to_multiset().count(x) > 0);
        }
        assert((poured + ins).contains(x) <==> (poured.contains(x) || ins.contains(x))) by {
            assert((poured + ins).to_multiset() =~= poured.to_multiset().add(ins.to_multiset()));
            (poured + ins).to_multiset_ensures();
            poured.to_multiset_ensures();
            ins.to_multiset_ensures();
            assert((poured + ins).contains(x) <==> (poured + ins).to_multiset().count(x) > 0);
            assert(poured.contains(x) <==> poured.to_multiset().count(x) > 0);
            assert(ins.contains(x) <==> ins.to_multiset().count(x) > 0);
        }
        assert(old.contains(x) <==> (r_rem.contains(x) || sel.contains(x))) by {
            assert((r_rem + sel).to_multiset() =~= r_rem.to_multiset().add(sel.to_multiset()));
            old.to_multiset_ensures();
            r_rem.to_multiset_ensures();
            sel.to_multiset_ensures();
            assert(old.contains(x) <==> old.to_multiset().count(x) > 0);
            assert(r_rem.contains(x) <==> r_rem.to_multiset().count(x) > 0);
            assert(sel.contains(x) <==> sel.to_multiset().count(x) > 0);
        }
        if r_rem.contains(x) && ukeys.contains(x.0) {
            lemma_remain_no_ukeys(rule, packs, u, max, x.0);
            lemma_kc_contains(r_rem, x);
        }
        if poured.contains(x) {
            sel.lemma_filter_contains_rev(f, x);
            let i = choose|i: int| 0 <= i < poured.len() && poured[i] == x;
            sel.lemma_filter_pred(f, i);
        }
        if ins.contains(x) {
            lemma_inserted_keys(u, x);
        }
        if sel.contains(x) && !ukeys.contains(x.0) {
            let i = choose|i: int| 0 <= i < sel.len() && sel[i] == x;
            sel.lemma_filter_contains(f, i);
        }
    }
}

/// Updating the packs of one bucket, as `update_packs` does, applies the
/// updates to the items of the bucket and keeps keys distinct.
pub proof fn lemma_update_outcome_law(
    rule: SizeRule,
    max: int,
    dir: Seq<char>,
    packs: Seq<(PackFileMeta, Pack)>,
    u: Seq<(Seq<u8>, Option<Seq<u8>>)>,
    remain: Seq<(PackFileMeta, Pack)>,
    new: Seq<(PackFileMeta, Pack)>,
    removed: Seq<String>,
)
    requires
        packs_wf(packs),
        keys_distinct(all_items(packs)),
        update_keys(u).no_duplicates(),
        update_limits_ok(rule, packs, u, max),
        max >= 0,
        update_outcome(rule, dir, max, packs, u, remain, new, removed),
    ensures
        packs_wf(remain),
        packs_wf(new),
        keys_distinct(all_items(remain) + all_items(new)),
        forall|x: (Seq<u8>, Seq<u8>)|
            #![trigger (all_items(remain) + all_items(new)).contains(x)]
            (all_items(remain) + all_items(new)).contains(x) <==> applied(all_items(packs), u, x),
{
    let flags = removed_flags(rule, packs, u, max);
    let ukeys = update_keys(u);
    let p = choose|p: Seq<(Seq<u8>, Seq<u8>)>|
        {
            &&& value_len_sorted(p)
            &&& p.to_multiset() == (poured_items(packs, flags, ukeys) + inserted_items(
                u,
            )).to_multiset()
            &&& created_packs(new, dir, #[trigger] pack_layout(rule, p, max), rule)
        };
    let w = poured_items(packs, flags, ukeys) + inserted_items(u);
    lemma_contains_transfer(p, w);
    lemma_no_stall_subset(rule, p, w, max);
    lemma_update_packs_law(rule, max, dir, packs, u, remain, new, p);
}

} // verus!
