use vstd::prelude::*;

use crate::meta::PackFileMeta;
use crate::model::{Item, items_view, byte_seqs, bytes_eq, clone_bytes, contains_bytes};
use crate::pack::{Pack, PackKeysState, PackContentsState, pack_keys, pack_contents, pack_items};
use crate::scope_update::{zipped, zip_bucket, unzip_pairs};
use crate::packing::{
    SizeRule, create_packs, no_stall, pack_layout, created_packs, value_len_sorted,
    lemma_no_stall_subset,
};

verus! {

/// One update of a key: `Some` value to set it, `None` to remove it.
pub type Update = (Vec<u8>, Option<Vec<u8>>);

pub open spec fn update_view(u: Update) -> (Seq<u8>, Option<Seq<u8>>) {
    (
        u.0@,
        match u.1 {
            Some(v) => Some(v@),
            None => None,
        },
    )
}

pub open spec fn updates_view(u: Seq<Update>) -> Seq<(Seq<u8>, Option<Seq<u8>>)> {
    u.map_values(|x: Update| update_view(x))
}

/// Whether an update removes its key.
pub open spec fn removal_pred() -> spec_fn((Seq<u8>, Option<Seq<u8>>)) -> bool {
    |x: (Seq<u8>, Option<Seq<u8>>)| x.1 is None
}

/// The keys that the updates touch.
pub open spec fn update_keys(u: Seq<(Seq<u8>, Option<Seq<u8>>)>) -> Seq<Seq<u8>> {
    u.map_values(|x: (Seq<u8>, Option<Seq<u8>>)| x.0)
}

/// The items that the updates set, in order.
pub open spec fn inserted_items(u: Seq<(Seq<u8>, Option<Seq<u8>>)>) -> Seq<(Seq<u8>, Seq<u8>)>
    decreases u.len(),
{
    if u.len() == 0 {
        Seq::empty()
    } else {
        let rest = inserted_items(u.drop_last());
        match u.last().1 {
            Some(v) => rest.push((u.last().0, v)),
            None => rest,
        }
    }
}

/// The last pack of `packs` whose keys hold `key`, or -1.
pub open spec fn owner(packs: Seq<(PackFileMeta, Pack)>, key: Seq<u8>) -> int
    decreases packs.len(),
{
    if packs.len() == 0 {
        -1
    } else if pack_keys(packs.last().1).contains(key) {
        packs.len() - 1
    } else {
        owner(packs.drop_last(), key)
    }
}

/// A pack that the split rule repacks because it is well below the maximal
/// size: its recorded size is under four fifths of it.
pub open spec fn is_small(rule: SizeRule, meta: PackFileMeta, max: int) -> bool {
    rule is Split && 4 * max > 5 * meta.size
}

/// Whether the update drops the pack at `j`: it is small, or it holds a key
/// that an update touches.
pub open spec fn is_removed(
    rule: SizeRule,
    packs: Seq<(PackFileMeta, Pack)>,
    u: Seq<(Seq<u8>, Option<Seq<u8>>)>,
    max: int,
    j: int,
) -> bool {
    is_small(rule, packs[j].0, max) || exists|i: int|
        0 <= i < u.len() && #[trigger] owner(packs, u[i].0) == j
}

pub open spec fn removed_flags(
    rule: SizeRule,
    packs: Seq<(PackFileMeta, Pack)>,
    u: Seq<(Seq<u8>, Option<Seq<u8>>)>,
    max: int,
) -> Seq<bool> {
    Seq::new(packs.len(), |j: int| is_removed(rule, packs, u, max, j))
}

/// The elements of `s` whose flag is `want`, in order.
pub open spec fn select_by<A>(s: Seq<A>, flags: Seq<bool>, want: bool) -> Seq<A>
    decreases s.len(),
{
    if s.len() == 0 {
        Seq::empty()
    } else {
        let rest = select_by(s.drop_last(), flags.drop_last(), want);
        if flags[s.len() - 1] == want {
            rest.push(s.last())
        } else {
            rest
        }
    }
}

/// The items that removed packs give back: those whose key no update touches.
pub open spec fn poured_items(
    packs: Seq<(PackFileMeta, Pack)>,
    flags: Seq<bool>,
    ukeys: Seq<Seq<u8>>,
) -> Seq<(Seq<u8>, Seq<u8>)>
    decreases packs.len(),
{
    if packs.len() == 0 {
        Seq::empty()
    } else {
        let rest = poured_items(packs.drop_last(), flags.drop_last(), ukeys);
        if flags[packs.len() - 1] {
            rest + pack_items(packs.last().1).filter(
                |it: (Seq<u8>, Seq<u8>)| !ukeys.contains(it.0),
            )
        } else {
            rest
        }
    }
}

/// All items that the packs hold, pack after pack.
pub open spec fn all_items(packs: Seq<(PackFileMeta, Pack)>) -> Seq<(Seq<u8>, Seq<u8>)>
    decreases packs.len(),
{
    if packs.len() == 0 {
        Seq::empty()
    } else {
        all_items(packs.drop_last()) + pack_items(packs.last().1)
    }
}

/// What updating the packs of one bucket gives: the packs that stay, the
/// files of the removed packs, and new packs for the layout of the items
/// poured out of the removed packs together with the set items.
pub open spec fn update_outcome(
    rule: SizeRule,
    dir: Seq<char>,
    max: int,
    packs: Seq<(PackFileMeta, Pack)>,
    u: Seq<(Seq<u8>, Option<Seq<u8>>)>,
    remain: Seq<(PackFileMeta, Pack)>,
    new: Seq<(PackFileMeta, Pack)>,
    removed: Seq<String>,
) -> bool {
    let flags = removed_flags(rule, packs, u, max);
    &&& remain == select_by(packs, flags, false)
    &&& removed == select_by(packs, flags, true).map_values(|e: (PackFileMeta, Pack)| e.1.path)
    &&& exists|p: Seq<(Seq<u8>, Seq<u8>)>|
        {
            &&& value_len_sorted(p)
            &&& p.to_multiset() == (poured_items(packs, flags, update_keys(u)) + inserted_items(
                u,
            )).to_multiset()
            &&& created_packs(new, dir, #[trigger] pack_layout(rule, p, max), rule)
        }
}

/// The result of updating the packs of one bucket.
pub struct PackIncrementalResult {
    /// Packs made for the items of removed packs and for the set items.
    pub new_packs: Vec<(PackFileMeta, Pack)>,
    /// Packs the update leaves as they are.
    pub remain_packs: Vec<(PackFileMeta, Pack)>,
    /// Files of the removed packs.
    pub removed_files: Vec<String>,
}

/// The result of updating the packs of one bucket, as the split strategy
/// names it.
pub type UpdatePacksResult = PackIncrementalResult;

pub open spec fn update_limits_ok(
    rule: SizeRule,
    packs: Seq<(PackFileMeta, Pack)>,
    u: Seq<(Seq<u8>, Option<Seq<u8>>)>,
    max: int,
) -> bool {
    let pool = poured_items(packs, removed_flags(rule, packs, u, max), update_keys(u))
        + inserted_items(u);
    &&& no_stall(rule, pool, max)
    &&& rule is Split ==> forall|a: (Seq<u8>, Seq<u8>)|
        #[trigger] pool.contains(a) ==> a.0.len() + a.1.len() <= usize::MAX
}

/// The last pack of `ps` whose keys hold `key`.
fn find_owner(metas: &Vec<PackFileMeta>, ps: &Vec<Pack>, key: &Vec<u8>) -> (r: Option<usize>)
    requires
        metas@.len() == ps@.len(),
    ensures
        r matches Some(j) ==> owner(zipped(metas@, ps@), key@) == j && j < ps@.len(),
        r is None ==> owner(zipped(metas@, ps@), key@) == -1,
{
    let ghost z = zipped(metas@, ps@);
    let mut j: usize = ps.len();
    proof {
        assert(z.take(j as int) =~= z);
    }
    while j > 0
        invariant
            z == zipped(metas@, ps@),
            metas@.len() == ps@.len(),
            j <= ps@.len(),
            owner(z, key@) == owner(z.take(j as int), key@),
        decreases j,
    {
        let holds = match &ps[j - 1].keys {
            PackKeysState::Value(ks) => contains_bytes(ks, key),
            PackKeysState::Pending => false,
        };
        proof {
            let t = z.take(j as int);
            assert(t.last() == z[j - 1]);
            assert(t.drop_last() =~= z.take(j - 1));
            assert(holds == pack_keys(t.last().1).contains(key@));
        }
        if holds {
            return Some(j - 1);
        }
        j = j - 1;
    }
    None
}

/// Whether one of the updates touches `key`.
fn updates_touch(updates: &Vec<Update>, key: &Vec<u8>) -> (r: bool)
    ensures
        r == update_keys(updates_view(updates@)).contains(key@),
{
    let mut i: usize = 0;
    while i < updates.len()
        invariant
            i <= updates@.len(),
            forall|j: int| 0 <= j < i ==> update_keys(updates_view(updates@))[j] != key@,
        decreases updates@.len() - i,
    {
        if bytes_eq(&updates[i].0, key) {
            proof {
                assert(update_keys(updates_view(updates@))[i as int] == key@);
            }
            return true;
        }
        i = i + 1;
    }
    false
}

proof fn lemma_select_push<A>(s: Seq<A>, flags: Seq<bool>, want: bool, x: A, f: bool)
    requires
        s.len() == flags.len(),
    ensures
        select_by(s.push(x), flags.push(f), want) == (if f == want {
            select_by(s, flags, want).push(x)
        } else {
            select_by(s, flags, want)
        }),
{
    assert(s.push(x).drop_last() =~= s);
    assert(flags.push(f).drop_last() =~= flags);
}

proof fn lemma_poured_push(
    packs: Seq<(PackFileMeta, Pack)>,
    flags: Seq<bool>,
    ukeys: Seq<Seq<u8>>,
    e: (PackFileMeta, Pack),
    f: bool,
)
    requires
        packs.len() == flags.len(),
    ensures
        poured_items(packs.push(e), flags.push(f), ukeys) == (if f {
            poured_items(packs, flags, ukeys) + pack_items(e.1).filter(
                |it: (Seq<u8>, Seq<u8>)| !ukeys.contains(it.0),
            )
        } else {
            poured_items(packs, flags, ukeys)
        }),
{
    assert(packs.push(e).drop_last() =~= packs);
    assert(flags.push(f).drop_last() =~= flags);
}

proof fn lemma_inserted_push(u: Seq<(Seq<u8>, Option<Seq<u8>>)>, i: int)
    requires
        0 <= i < u.len(),
    ensures
        inserted_items(u.take(i + 1)) == (match u[i].1 {
            Some(v) => inserted_items(u.take(i)).push((u[i].0, v)),
            None => inserted_items(u.take(i)),
        }),
{
    assert(u.take(i + 1).drop_last() =~= u.take(i));
}

/// Items poured out of removed packs are items of the packs.
pub proof fn lemma_poured_in_all(
    packs: Seq<(PackFileMeta, Pack)>,
    flags: Seq<bool>,
    ukeys: Seq<Seq<u8>>,
)
    requires
        packs.len() == flags.len(),
    ensures
        forall|i: int|
            0 <= i < poured_items(packs, flags, ukeys).len() ==> all_items(packs).contains(
                #[trigger] poured_items(packs, flags, ukeys)[i],
            ),
    decreases packs.len(),
{
    if packs.len() > 0 {
        lemma_poured_in_all(packs.drop_last(), flags.drop_last(), ukeys);
        let f = |it: (Seq<u8>, Seq<u8>)| !ukeys.contains(it.0);
        let last = pack_items(packs.last().1);
        let rest = poured_items(packs.drop_last(), flags.drop_last(), ukeys);
        let all_rest = all_items(packs.drop_last());
        assert(all_items(packs) == all_rest + last);
        let pp = poured_items(packs, flags, ukeys);
        assert forall|i: int| 0 <= i < pp.len() implies all_items(packs).contains(
            #[trigger] pp[i],
        ) by {
            let x = pp[i];
            if flags[packs.len() - 1] {
                assert(pp == rest + last.filter(f));
                if i < rest.len() {
                    assert(rest[i] == x);
                    assert(all_rest.contains(rest[i]));
                    let k2 = choose|k2: int| 0 <= k2 < all_rest.len() && all_rest[k2] == x;
                    assert(all_items(packs)[k2] == x);
                } else {
                    assert(last.filter(f)[i - rest.len()] == x);
                    assert(last.filter(f).contains(x));
                    last.lemma_filter_contains_rev(f, x);
                    assert(last.contains(x));
                    let k2 = choose|k2: int| 0 <= k2 < last.len() && last[k2] == x;
                    assert(all_items(packs)[all_rest.len() + k2] == x);
                }
            } else {
                assert(pp == rest);
                assert(all_rest.contains(rest[i]));
                let k2 = choose|k2: int| 0 <= k2 < all_rest.len() && all_rest[k2] == x;
                assert(all_items(packs)[k2] == x);
            }
        }
    }
}

/// The flags of the packs that updating drops, and the items laid out anew:
/// those of dropped packs whose keys the updates leave alone, then the items
/// the updates set.
pub fn layout_items(
    rule: SizeRule,
    max: usize,
    metas: &Vec<PackFileMeta>,
    ps: &Vec<Pack>,
    updates: &Vec<Update>,
) -> (r: (Vec<bool>, Vec<Item>))
    requires
        metas@.len() == ps@.len(),
    ensures
        r.0@ == removed_flags(rule, zipped(metas@, ps@), updates_view(updates@), max as int),
        items_view(r.1@) == poured_items(
            zipped(metas@, ps@),
            r.0@,
            update_keys(updates_view(updates@)),
        ) + inserted_items(updates_view(updates@)),
{
    let ghost u = updates_view(updates@);
    let ghost packs0 = zipped(metas@, ps@);
    let ghost flags_spec = removed_flags(rule, packs0, u, max as int);
    let n = ps.len();
    let mut flags: Vec<bool> = Vec::new();
    let mut j: usize = 0;
    while j < n
        invariant
            n == ps@.len(),
            metas@.len() == ps@.len(),
            packs0 == zipped(metas@, ps@),
            j <= n,
            flags@.len() == j,
            forall|k: int| 0 <= k < j ==> flags@[k] == is_small(rule, packs0[k].0, max as int),
        decreases n - j,
    {
        let small = match rule {
            SizeRule::Split => 4 * (max as u128) > 5 * (metas[j].size as u128),
            SizeRule::Legacy => false,
        };
        flags.push(small);
        j = j + 1;
    }
    let mut i: usize = 0;
    while i < updates.len()
        invariant
            n == ps@.len(),
            metas@.len() == ps@.len(),
            packs0 == zipped(metas@, ps@),
            u == updates_view(updates@),
            i <= updates@.len(),
            flags@.len() == n,
            forall|k: int|
                #![trigger flags@[k]]
                0 <= k < n ==> (flags@[k] == (is_small(rule, packs0[k].0, max as int) || exists|
                    i2: int,
                | 0 <= i2 < i && #[trigger] owner(packs0, u[i2].0) == k)),
        decreases updates@.len() - i,
    {
        let o = find_owner(metas, ps, &updates[i].0);
        proof {
            assert(u[i as int].0 == updates@[i as int].0@);
        }
        match o {
            Some(jj) => {
                flags.set(jj, true);
            },
            None => {},
        }
        proof {
            assert forall|k: int| #![trigger flags@[k]] 0 <= k < n implies (flags@[k] == (is_small(
                rule,
                packs0[k].0,
                max as int,
            ) || exists|i2: int| 0 <= i2 < i + 1 && #[trigger] owner(packs0, u[i2].0) == k)) by {
                if owner(packs0, u[i as int].0) == k {
                    assert(0 <= i < i + 1);
                } else {
                    if exists|i2: int| 0 <= i2 < i + 1 && #[trigger] owner(packs0, u[i2].0) == k {
                        let i2 = choose|i2: int| 0 <= i2 < i + 1 && #[trigger] owner(packs0, u[i2].0) == k;
                        assert(i2 < i);
                    }
                }
            }
        }
        i = i + 1;
    }
    proof {
        assert(flags@ =~= flags_spec);
    }
    let ghost ukeys = update_keys(u);
    let mut wait: Vec<Item> = Vec::new();
    let mut idx: usize = 0;
    proof {
        assert(packs0.take(0) =~= Seq::<(PackFileMeta, Pack)>::empty());
        assert(flags_spec.take(0) =~= Seq::<bool>::empty());
    }
    while idx < n
        invariant
            n == ps@.len(),
            metas@.len() == ps@.len(),
            packs0 == zipped(metas@, ps@),
            idx <= n,
            flags@ == flags_spec,
            flags_spec.len() == n,
            ukeys == update_keys(updates_view(updates@)),
            items_view(wait@) == poured_items(
                packs0.take(idx as int),
                flags_spec.take(idx as int),
                ukeys,
            ),
        decreases n - idx,
    {
        let ghost e = packs0[idx as int];
        proof {
            assert(packs0.take(idx + 1) =~= packs0.take(idx as int).push(e));
            assert(flags_spec.take(idx + 1) =~= flags_spec.take(idx as int).push(flags_spec[idx as int]));
            lemma_poured_push(packs0.take(idx as int), flags_spec.take(idx as int), ukeys, e, flags_spec[idx as int]);
        }
        if flags[idx] {
            let ghost items_e = pack_items(e.1);
            let ghost fpred = |it: (Seq<u8>, Seq<u8>)| !ukeys.contains(it.0);
            let ghost w0 = items_view(wait@);
            let pack = &ps[idx];
            match (&pack.keys, &pack.contents) {
                (PackKeysState::Value(ks), PackContentsState::Value(cs)) => {
                    if ks.len() == cs.len() {
                        let mut t: usize = 0;
                        proof {
                            assert(items_e.take(0) =~= Seq::<(Seq<u8>, Seq<u8>)>::empty());
                            assert(items_e.take(0).filter(fpred) =~= Seq::<(Seq<u8>, Seq<u8>)>::empty());
                            assert(w0 + items_e.take(0).filter(fpred) =~= w0);
                        }
                        while t < ks.len()
                            invariant
                                ks@.len() == cs@.len(),
                                t <= ks@.len(),
                                items_e.len() == ks@.len(),
                                forall|k: int| 0 <= k < items_e.len() ==> #[trigger] items_e[k] == (ks@[k]@, cs@[k]@),
                                ukeys == update_keys(updates_view(updates@)),
                                fpred == (|it: (Seq<u8>, Seq<u8>)| !ukeys.contains(it.0)),
                                items_view(wait@) == w0 + items_e.take(t as int).filter(fpred),
                            decreases ks@.len() - t,
                        {
                            proof {
                                assert(items_e.take(t + 1) =~= items_e.take(t as int).push(items_e[t as int]));
                                items_e.take(t as int).lemma_filter_push(items_e[t as int], fpred);
                            }
                            if !updates_touch(updates, &ks[t]) {
                                let kk = clone_bytes(&ks[t]);
                                let vv = clone_bytes(&cs[t]);
                                let ghost wb = items_view(wait@);
                                wait.push((kk, vv));
                                proof {
                                    assert(items_view(wait@) =~= wb.push((ks@[t as int]@, cs@[t as int]@)));
                                }
                            }
                            t = t + 1;
                        }
                        proof {
                            assert(items_e.take(t as int) =~= items_e);
                        }
                    } else {
                        proof {
                            assert(items_e =~= Seq::<(Seq<u8>, Seq<u8>)>::empty());
                            assert(items_e.filter(fpred) =~= Seq::<(Seq<u8>, Seq<u8>)>::empty());
                            assert(w0 + items_e.filter(fpred) =~= w0);
                        }
                    }
                },
                _ => {
                    proof {
                        assert(items_e =~= Seq::<(Seq<u8>, Seq<u8>)>::empty());
                        assert(items_e.filter(fpred) =~= Seq::<(Seq<u8>, Seq<u8>)>::empty());
                        assert(w0 + items_e.filter(fpred) =~= w0);
                    }
                },
            }
        }
        idx = idx + 1;
    }
    proof {
        assert(packs0.take(idx as int) =~= packs0);
        assert(flags_spec.take(idx as int) =~= flags_spec);
    }
    let ghost poured = items_view(wait@);
    let mut i: usize = 0;
    proof {
        assert(u.take(0) =~= Seq::<(Seq<u8>, Option<Seq<u8>>)>::empty());
        assert(poured + inserted_items(u.take(0)) =~= poured);
    }
    while i < updates.len()
        invariant
            i <= updates@.len(),
            u == updates_view(updates@),
            items_view(wait@) == poured + inserted_items(u.take(i as int)),
        decreases updates@.len() - i,
    {
        proof {
            lemma_inserted_push(u, i as int);
        }
        match &updates[i].1 {
            Some(v) => {
                let kk = clone_bytes(&updates[i].0);
                let vv = clone_bytes(v);
                let ghost wb = items_view(wait@);
                wait.push((kk, vv));
                proof {
                    assert(items_view(wait@) =~= wb.push((kk@, vv@)));
                    assert(u[i as int] == update_view(updates@[i as int]));
                }
            },
            None => {
                proof {
                    assert(u[i as int] == update_view(updates@[i as int]));
                }
            },
        }
        i = i + 1;
    }
    proof {
        assert(u.take(i as int) =~= u);
    }
    (flags, wait)
}

/// Items set by the updates, with the items of removed packs whose keys the
/// updates leave alone, are laid out in new packs; the other packs stay.
pub fn update_packs(
    dir: &String,
    max: usize,
    rule: SizeRule,
    packs: Vec<(PackFileMeta, Pack)>,
    updates: Vec<Update>,
) -> (r: PackIncrementalResult)
    requires
        update_limits_ok(rule, packs@, updates_view(updates@), max as int),
    ensures
        update_outcome(
            rule,
            dir@,
            max as int,
            packs@,
            updates_view(updates@),
            r.remain_packs@,
            r.new_packs@,
            r.removed_files@,
        ),
{
    let ghost u = updates_view(updates@);
    let ghost packs0 = packs@;
    let ghost flags_spec = removed_flags(rule, packs0, u, max as int);
    let n = packs.len();
    let (ms, ps) = unzip_pairs(packs);
    let (flags, wait) = layout_items(rule, max, &ms, &ps, &updates);
    let packs = zip_bucket(ms, ps);
    proof {
        assert(packs@ == packs0);
    }
    // Walk the packs in order: keep some, drop the others.
    let mut rev: Vec<(PackFileMeta, Pack)> = Vec::new();
    let mut rest = packs;
    while rest.len() > 0
        invariant
            rest@ + rev@.reverse() == packs0,
        decreases rest@.len(),
    {
        let ghost r0 = rest@;
        let ghost v0 = rev@;
        let e = rest.pop().unwrap();
        rev.push(e);
        proof {
            assert(rev@.reverse() =~= seq![r0.last()] + v0.reverse());
            assert(r0 =~= rest@ + seq![r0.last()]);
            assert(rest@ + rev@.reverse() =~= r0 + v0.reverse());
        }
    }
    proof {
        assert(rev@.reverse() =~= packs0);
        assert(rev@ =~= packs0.reverse());
    }
    let mut remain: Vec<(PackFileMeta, Pack)> = Vec::new();
    let mut removed_files: Vec<String> = Vec::new();
    let mut idx: usize = 0;
    proof {
        assert(packs0.take(0) =~= Seq::<(PackFileMeta, Pack)>::empty());
        assert(flags_spec.take(0) =~= Seq::<bool>::empty());
        assert(packs0.skip(0) =~= packs0);
        assert(select_by(Seq::<(PackFileMeta, Pack)>::empty(), Seq::<bool>::empty(), false) =~= Seq::<(PackFileMeta, Pack)>::empty());
    }
    while rev.len() > 0
        invariant
            idx <= n == packs0.len(),
            flags@ == flags_spec,
            flags_spec.len() == n,
            rev@ == packs0.skip(idx as int).reverse(),
            remain@ == select_by(packs0.take(idx as int), flags_spec.take(idx as int), false),
            removed_files@ == select_by(packs0.take(idx as int), flags_spec.take(idx as int), true).map_values(
                |e: (PackFileMeta, Pack)| e.1.path,
            ),
        decreases rev@.len(),
    {
        let ghost rv0 = rev@;
        let e = rev.pop().unwrap();
        proof {
            let s = packs0.skip(idx as int);
            assert(rv0 == s.reverse());
            assert(e == s[0]);
            assert(s[0] == packs0[idx as int]);
            assert(rev@ =~= packs0.skip(idx + 1).reverse());
            assert(packs0.take(idx + 1) =~= packs0.take(idx as int).push(e));
            assert(flags_spec.take(idx + 1) =~= flags_spec.take(idx as int).push(flags_spec[idx as int]));
            lemma_select_push(packs0.take(idx as int), flags_spec.take(idx as int), false, e, flags_spec[idx as int]);
            lemma_select_push(packs0.take(idx as int), flags_spec.take(idx as int), true, e, flags_spec[idx as int]);
        }
        if flags[idx] {
            let (_meta, pack) = e;
            let path = pack.path;
            proof {
                let sel = select_by(packs0.take(idx as int), flags_spec.take(idx as int), true);
                assert(sel.push(e).map_values(|x: (PackFileMeta, Pack)| x.1.path) =~= sel.map_values(|x: (PackFileMeta, Pack)| x.1.path).push(path));
            }
            removed_files.push(path);
        } else {
            remain.push(e);
        }
        idx = idx + 1;
    }
    proof {
        assert(packs0.take(idx as int) =~= packs0);
        assert(flags_spec.take(idx as int) =~= flags_spec);
        let pool = items_view(wait@);
        if rule is Split {
            assert forall|k: int| 0 <= k < wait@.len() implies #[trigger] wait@[k].0@.len() + wait@[k].1@.len() <= usize::MAX by {
                assert(items_view(wait@)[k] == (wait@[k].0@, wait@[k].1@));
                assert(pool.contains(items_view(wait@)[k]));
            }
        }
    }
    let new_packs = create_packs(dir, max, wait, rule);
    PackIncrementalResult { new_packs, remain_packs: remain, removed_files }
}

} // verus!
