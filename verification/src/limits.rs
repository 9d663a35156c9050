use vstd::prelude::*;

use crate::bucket::{bucket_computable, byte_sum, lemma_byte_sum_prefix};
use crate::model::{Item, items_view, item_view, clone_bytes, bytes_eq};
use crate::pack::{Pack, PackKeysState, PackContentsState, pack_items};
use crate::packing::{SizeRule, no_stall, item_weight, is_big, lemma_legacy_no_stall};
use crate::scope::{PackScope, ScopeMetaState, ScopePacksState, bucket_items};
use crate::scope_update::{
    scope_shape_ok, scope_pairs, scope_bucket_updates, updates_for_bucket, zipped, update_buckets,
};
use crate::update::{
    Update, updates_view, update_limits_ok, inserted_items, poured_items, removed_flags, update_keys,
};
use crate::bucket::{split_place, spec_choose_bucket};

verus! {

/// Whether the scope has the shape that updates need: meta and packs listed,
/// as many buckets as the options ask for, and as many packs as metas in
/// each.
pub fn shape_ok(s: &PackScope) -> (r: bool)
    ensures
        r == scope_shape_ok(*s),
{
    match (&s.meta, &s.packs) {
        (ScopeMetaState::Value(m), ScopePacksState::Value(ps)) => {
            let n = s.options.buckets;
            if n == 0 || m.packs.len() != n || ps.len() != n {
                return false;
            }
            let mut b: usize = 0;
            while b < n
                invariant
                    s.meta is Value,
                    s.packs is Value,
                    *m == s.meta->Value_0,
                    *ps == s.packs->Value_0,
                    n == s.options.buckets,
                    m.packs@.len() == n,
                    ps@.len() == n,
                    b <= n,
                    forall|k: int| 0 <= k < b ==> (#[trigger] m.packs@[k])@.len() == ps@[k]@.len(),
                decreases n - b,
            {
                if m.packs[b].len() != ps[b].len() {
                    return false;
                }
                b = b + 1;
            }
            true
        },
        _ => false,
    }
}

/// Whether the bucket of every updated key can be computed under `rule`.
pub fn keys_computable(rule: SizeRule, updates: &Vec<Update>) -> (r: bool)
    ensures
        r == forall|i: int| 0 <= i < updates@.len() ==> bucket_computable(rule, #[trigger] updates@[i].0@),
{
    if let SizeRule::Legacy = rule {
        return true;
    }
    let mut i: usize = 0;
    while i < updates.len()
        invariant
            rule is Split,
            i <= updates@.len(),
            forall|k: int| 0 <= k < i ==> bucket_computable(rule, #[trigger] updates@[k].0@),
        decreases updates@.len() - i,
    {
        let key = &updates[i].0;
        let mut acc: u128 = 0;
        let mut j: usize = 0;
        let mut fits = true;
        while j < key.len()
            invariant
                j <= key@.len(),
                fits ==> acc == byte_sum(key@.take(j as int)) && acc <= usize::MAX,
                !fits ==> byte_sum(key@) > usize::MAX,
            decreases key@.len() - j,
        {
            if fits {
                proof {
                    assert(key@.take(j + 1).drop_last() =~= key@.take(j as int));
                }
                acc = acc + key[j] as u128;
                if acc > usize::MAX as u128 {
                    fits = false;
                    proof {
                        lemma_byte_sum_prefix(key@, j + 1);
                    }
                }
            }
            j = j + 1;
        }
        proof {
            if fits {
                assert(key@.take(j as int) =~= key@);
            }
        }
        if !fits {
            return false;
        }
        i = i + 1;
    }
    true
}





/// Whether the layout of `items` never stalls: every item heavier than `max`
/// has a longer value than every item that is not big.
pub fn stall_free(rule: SizeRule, items: &Vec<Item>, max: usize) -> (r: bool)
    ensures
        r == no_stall(rule, items_view(items@), max as int),
{
    let ghost s = items_view(items@);
    let n = items.len();
    let mut a: usize = 0;
    while a < n
        invariant
            n == items@.len(),
            s == items_view(items@),
            a <= n,
            forall|i: int, j: int|
                0 <= i < a && 0 <= j < n ==> (item_weight(rule, #[trigger] s[i]) > max && !is_big(
                    rule,
                    #[trigger] s[j],
                    max as int,
                ) ==> s[j].1.len() < s[i].1.len()),
        decreases n - a,
    {
        let wa: u128 = match rule {
            SizeRule::Legacy => items[a].1.len() as u128,
            SizeRule::Split => items[a].0.len() as u128 + items[a].1.len() as u128,
        };
        if wa > max as u128 {
            let mut b: usize = 0;
            while b < n
                invariant
                    n == items@.len(),
                    s == items_view(items@),
                    a < n,
                    b <= n,
                    item_weight(rule, s[a as int]) > max,
                    forall|j: int|
                        0 <= j < b ==> (!is_big(rule, #[trigger] s[j], max as int) ==> s[j].1.len()
                            < s[a as int].1.len()),
                decreases n - b,
            {
                let big = match rule {
                    SizeRule::Legacy => 2 * (items[b].1.len() as u128) > max as u128,
                    SizeRule::Split => 5 * (items[b].0.len() as u128 + items[b].1.len() as u128) > 4
                        * (max as u128),
                };
                if !big && items[b].1.len() >= items[a].1.len() {
                    proof {
                        let x = s[a as int];
                        let y = s[b as int];
                        assert(s.contains(x) && s.contains(y));
                        assert(!no_stall(rule, s, max as int));
                    }
                    return false;
                }
                b = b + 1;
            }
        }
        a = a + 1;
    }
    proof {
        assert forall|x: (Seq<u8>, Seq<u8>), y: (Seq<u8>, Seq<u8>)|
            s.contains(x) && s.contains(y) && item_weight(rule, x) > max && !is_big(
                rule,
                y,
                max as int,
            ) implies y.1.len() < x.1.len() by {
            let i = choose|i: int| 0 <= i < s.len() && s[i] == x;
            let j = choose|j: int| 0 <= j < s.len() && s[j] == y;
            assert(item_weight(rule, s[i]) > max && !is_big(rule, s[j], max as int));
        }
    }
    true
}

/// Whether each item's key and value together fit in a `usize`.
fn sizes_fit(items: &Vec<Item>) -> (r: bool)
    ensures
        r == forall|a: (Seq<u8>, Seq<u8>)|
            #[trigger] items_view(items@).contains(a) ==> a.0.len() + a.1.len() <= usize::MAX,
{
    let ghost s = items_view(items@);
    let mut i: usize = 0;
    while i < items.len()
        invariant
            s == items_view(items@),
            i <= items@.len(),
            forall|k: int| 0 <= k < i ==> (#[trigger] s[k]).0.len() + s[k].1.len() <= usize::MAX,
        decreases items@.len() - i,
    {
        if items[i].0.len() as u128 + items[i].1.len() as u128 > usize::MAX as u128 {
            proof {
                assert(s.contains(s[i as int]));
            }
            return false;
        }
        i = i + 1;
    }
    proof {
        assert forall|a: (Seq<u8>, Seq<u8>)| #[trigger] s.contains(a) implies a.0.len() + a.1.len()
            <= usize::MAX by {
            let k = choose|k: int| 0 <= k < s.len() && s[k] == a;
            assert(s[k].0.len() + s[k].1.len() <= usize::MAX);
        }
    }
    true
}

/// Whether the packs of every bucket can be updated without the layout
/// stalling: the check that updating a scope asks of its input, with the keys
/// placed as the split strategy places them. The first strategy never stalls.
pub fn update_allowed(rule: SizeRule, s: &PackScope, updates: &Vec<Update>) -> (r: bool)
    requires
        scope_shape_ok(*s),
        forall|i: int| 0 <= i < updates@.len() ==> bucket_computable(rule, #[trigger] updates@[i].0@),
    ensures
        r == forall|b: int|
            0 <= b < s.options.buckets ==> update_limits_ok(
                rule,
                #[trigger] scope_pairs(*s, b),
                scope_bucket_updates(split_place(s.options.buckets), *s, updates_view(updates@), b),
                s.options.max_pack_size as int,
            ),
{
    let buckets = s.options.buckets;
    let max = s.options.max_pack_size;
    let metas = match &s.meta {
        ScopeMetaState::Value(m) => &m.packs,
        ScopeMetaState::Pending => {
            assert(false);
            unreached()
        },
    };
    let packs = match &s.packs {
        ScopePacksState::Value(p) => p,
        ScopePacksState::Pending => {
            assert(false);
            unreached()
        },
    };
    if let SizeRule::Legacy = rule {
        proof {
            assert forall|k: int| 0 <= k < buckets implies update_limits_ok(
                rule,
                #[trigger] scope_pairs(*s, k),
                scope_bucket_updates(split_place(s.options.buckets), *s, updates_view(updates@), k),
                max as int,
            ) by {
                let ub = scope_bucket_updates(split_place(s.options.buckets), *s, updates_view(updates@), k);
                let pairs = scope_pairs(*s, k);
                lemma_legacy_no_stall(
                    poured_items(pairs, removed_flags(rule, pairs, ub, max as int), update_keys(ub))
                        + inserted_items(ub),
                    max as int,
                );
            }
        }
        return true;
    }
    let ids = update_buckets(rule, updates, buckets);
    let mut b: usize = 0;
    while b < buckets
        invariant
            scope_shape_ok(*s),
            rule is Split,
            ids@.len() == updates@.len(),
            forall|i: int|
                0 <= i < ids@.len() ==> #[trigger] ids@[i] < buckets && ids@[i]
                    == spec_choose_bucket(updates@[i].0@, buckets),
            buckets == s.options.buckets,
            max == s.options.max_pack_size,
            *metas == s.meta->Value_0.packs,
            *packs == s.packs->Value_0,
            forall|i: int| 0 <= i < updates@.len() ==> bucket_computable(rule, #[trigger] updates@[i].0@),
            b <= buckets,
            forall|k: int|
                0 <= k < b ==> update_limits_ok(
                    rule,
                    #[trigger] scope_pairs(*s, k),
                    scope_bucket_updates(split_place(s.options.buckets), *s, updates_view(updates@), k),
                    max as int,
                ),
        decreases buckets - b,
    {
        let ub = updates_for_bucket(updates, &ids, b, Ghost(split_place(buckets)));
        let (_flags, pool) = crate::update::layout_items(rule, max, &metas[b], &packs[b], &ub);
        proof {
            assert(zipped(metas@[b as int]@, packs@[b as int]@) == scope_pairs(*s, b as int));
        }
        let ok = stall_free(rule, &pool, max) && match rule {
            SizeRule::Split => sizes_fit(&pool),
            SizeRule::Legacy => true,
        };
        if !ok {
            return false;
        }
        b = b + 1;
    }
    true
}

/// Whether no key is updated twice, as the updates of one save never are.
pub fn update_keys_distinct(updates: &Vec<Update>) -> (r: bool)
    ensures
        r == update_keys(updates_view(updates@)).no_duplicates(),
{
    let ghost ks = update_keys(updates_view(updates@));
    let mut i: usize = 0;
    while i < updates.len()
        invariant
            ks == update_keys(updates_view(updates@)),
            i <= updates@.len(),
            forall|a: int, c: int| 0 <= a < c < updates@.len() && a < i ==> ks[a] != ks[c],
        decreases updates@.len() - i,
    {
        let mut j: usize = i + 1;
        while j < updates.len()
            invariant
                ks == update_keys(updates_view(updates@)),
                i < updates@.len(),
                i + 1 <= j <= updates@.len(),
                forall|a: int, c: int| 0 <= a < c < updates@.len() && a < i ==> ks[a] != ks[c],
                forall|c: int| i < c < j ==> ks[i as int] != ks[c],
            decreases updates@.len() - j,
        {
            if bytes_eq(&updates[i].0, &updates[j].0) {
                proof {
                    assert(ks[i as int] == ks[j as int]);
                }
                return false;
            }
            j = j + 1;
        }
        i = i + 1;
    }
    true
}

} // verus!
