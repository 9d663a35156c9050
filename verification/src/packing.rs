use vstd::prelude::*;

use crate::hash::{get_name, is_hex_name};
use crate::meta::PackFileMeta;
use crate::model::{Item, item_view, items_view, byte_seqs, total_len, lemma_total_len_push};
use crate::pack::{
    Pack, PackKeysState, PackContentsState, pack_keys, pack_contents, pack_items, spec_pack_size,
};
use crate::text::{join_path, spec_join};

verus! {

broadcast use vstd::seq_lib::group_to_multiset_ensures;

/// Whether the values of `s` come in ascending order of length.
pub open spec fn value_len_sorted(s: Seq<(Seq<u8>, Seq<u8>)>) -> bool {
    forall|i: int, j: int| 0 <= i <= j < s.len() ==> s[i].1.len() <= s[j].1.len()
}

/// Sorts items by the length of their values, shortest first.
pub fn sort_by_value_len(items: Vec<Item>) -> (sorted: Vec<Item>)
    ensures
        value_len_sorted(items_view(sorted@)),
        items_view(sorted@).to_multiset() == items_view(items@).to_multiset(),
{
    let ghost orig = items_view(items@);
    let mut rest = items;
    let mut sorted: Vec<Item> = Vec::new();
    while rest.len() > 0
        invariant
            value_len_sorted(items_view(sorted@)),
            items_view(rest@).to_multiset().add(items_view(sorted@).to_multiset())
                == orig.to_multiset(),
        decreases rest@.len(),
    {
        let ghost before_rest = items_view(rest@);
        let ghost before_sorted = items_view(sorted@);
        let it = rest.pop().unwrap();
        proof {
            assert(items_view(rest@) =~= before_rest.drop_last());
            assert(before_rest.drop_last().push(before_rest.last()) =~= before_rest);
            assert(before_rest.last() == item_view(it));
        }
        let n = it.1.len();
        let mut j: usize = 0;
        while j < sorted.len() && sorted[j].1.len() <= n
            invariant
                j <= sorted@.len(),
                n == it.1@.len(),
                forall|k: int| 0 <= k < j ==> #[trigger] sorted@[k].1@.len() <= n,
            decreases sorted@.len() - j,
        {
            j = j + 1;
        }
        sorted.insert(j, it);
        proof {
            let s = items_view(sorted@);
            assert(s =~= before_sorted.insert(j as int, item_view(it)));
            assert forall|a: int, b: int| 0 <= a <= b < s.len() implies s[a].1.len()
                <= s[b].1.len() by {
                if a < j && b < j {
                    assert(s[a] == before_sorted[a] && s[b] == before_sorted[b]);
                } else if a < j && b == j {
                    assert(s[a] == before_sorted[a]);
                    assert(sorted@[a].1@.len() <= n);
                } else if a < j {
                    assert(s[a] == before_sorted[a] && s[b] == before_sorted[b - 1]);
                } else if a == j && b == j {
                } else if a == j {
                    assert(s[b] == before_sorted[b - 1]);
                    if j < before_sorted.len() {
                        assert(!(before_sorted[j as int].1.len() <= n));
                    }
                } else {
                    assert(s[a] == before_sorted[a - 1] && s[b] == before_sorted[b - 1]);
                }
            }
            broadcast use vstd::multiset::group_multiset_axioms;
        }
    }
    proof {
        assert(items_view(rest@) =~= Seq::<(Seq<u8>, Seq<u8>)>::empty());
        assert(items_view(rest@).to_multiset() =~= vstd::multiset::Multiset::empty());
    }
    sorted
}

/// How a layout weighs items and which items it sets apart.
///
/// `Split` is the rule of the split strategy: an item weighs its key and its
/// value, and an item is big when it weighs more than four fifths of the
/// maximal pack size. `Legacy` is the rule of the first pack strategy: an item
/// weighs its value only, and it is big when its value is more than half the
/// maximal pack size.
#[derive(Debug, Clone, Copy, PartialEq, Eq)]
pub enum SizeRule {
    Legacy,
    Split,
}

pub open spec fn item_weight(rule: SizeRule, it: (Seq<u8>, Seq<u8>)) -> int {
    match rule {
        SizeRule::Legacy => it.1.len() as int,
        SizeRule::Split => (it.0.len() + it.1.len()) as int,
    }
}

/// Whether an item goes into a pack of its own.
pub open spec fn is_big(rule: SizeRule, it: (Seq<u8>, Seq<u8>), max: int) -> bool {
    match rule {
        SizeRule::Legacy => 2 * it.1.len() > max,
        SizeRule::Split => 5 * (it.0.len() + it.1.len()) > 4 * max,
    }
}

/// The layout never meets an item that fits in no pack: every item that
/// weighs more than the maximal size has a longer value than every item that
/// is not big, so that it is set apart before the packing of the rest starts.
pub open spec fn no_stall(rule: SizeRule, s: Seq<(Seq<u8>, Seq<u8>)>, max: int) -> bool {
    forall|a: (Seq<u8>, Seq<u8>), b: (Seq<u8>, Seq<u8>)|
        #![trigger s.contains(a), s.contains(b)]
        s.contains(a) && s.contains(b) && item_weight(rule, a) > max && !is_big(rule, b, max)
            ==> b.1.len() < a.1.len()
}

/// How many items at the end of `p` are big, counted from the end.
pub open spec fn big_suffix_len(rule: SizeRule, p: Seq<(Seq<u8>, Seq<u8>)>, max: int) -> nat
    decreases p.len(),
{
    if p.len() > 0 && is_big(rule, p.last(), max) {
        1 + big_suffix_len(rule, p.drop_last(), max)
    } else {
        0
    }
}

/// How many items from the front of `q` fit into a pack that already holds
/// `acc`, taken greedily in order.
pub open spec fn greedy_take(rule: SizeRule, q: Seq<(Seq<u8>, Seq<u8>)>, max: int, acc: int) -> int
    decreases q.len(),
{
    if q.len() == 0 || acc + item_weight(rule, q[0]) > max {
        0
    } else {
        1 + greedy_take(rule, q.drop_first(), max, acc + item_weight(rule, q[0]))
    }
}

/// The packs that greedy packing of `q` in order makes.
pub open spec fn greedy_batches(rule: SizeRule, q: Seq<(Seq<u8>, Seq<u8>)>, max: int) -> Seq<
    Seq<(Seq<u8>, Seq<u8>)>,
>
    decreases q.len(),
{
    let t = greedy_take(rule, q, max, 0);
    if 0 < t <= q.len() {
        seq![q.take(t)] + greedy_batches(rule, q.skip(t), max)
    } else {
        Seq::empty()
    }
}

/// The order in which the first `m` items of `p` are packed: shortest value
/// first under the split rule, longest first under the first rule.
pub open spec fn packing_queue(rule: SizeRule, p: Seq<(Seq<u8>, Seq<u8>)>, m: int) -> Seq<
    (Seq<u8>, Seq<u8>),
> {
    if rule is Split {
        p.take(m)
    } else {
        p.take(m).reverse()
    }
}

/// The packs that the layout makes of the items `p`, sorted by value length:
/// first the big items at the end, one pack each, largest first; then the
/// rest, packed greedily in the order of `packing_queue`.
pub open spec fn pack_layout(rule: SizeRule, p: Seq<(Seq<u8>, Seq<u8>)>, max: int) -> Seq<
    Seq<(Seq<u8>, Seq<u8>)>,
> {
    let m = p.len() - big_suffix_len(rule, p, max);
    Seq::new(big_suffix_len(rule, p, max), |i: int| seq![p[p.len() - 1 - i]]) + greedy_batches(
        rule,
        packing_queue(rule, p, m),
        max,
    )
}

/// `e` is the new, unwritten pack in `dir` that holds `batch`.
pub open spec fn created_pack(
    e: (PackFileMeta, Pack),
    dir: Seq<char>,
    batch: Seq<(Seq<u8>, Seq<u8>)>,
    rule: SizeRule,
) -> bool {
    &&& e.1.keys is Value
    &&& e.1.contents is Value
    &&& pack_keys(e.1) == batch.map_values(|it: (Seq<u8>, Seq<u8>)| it.0)
    &&& pack_contents(e.1) == batch.map_values(|it: (Seq<u8>, Seq<u8>)| it.1)
    &&& is_hex_name(e.0.name@)
    &&& e.1.path@ == spec_join(dir, e.0.name@)
    &&& e.0.hash@ == Seq::<char>::empty()
    &&& !e.0.writed
    &&& e.0.size == (if rule is Split {
        spec_pack_size(e.1)
    } else {
        0
    })
}

/// `out` are the new packs in `dir` for the batches of `layout`, in order.
pub open spec fn created_packs(
    out: Seq<(PackFileMeta, Pack)>,
    dir: Seq<char>,
    layout: Seq<Seq<(Seq<u8>, Seq<u8>)>>,
    rule: SizeRule,
) -> bool {
    &&& out.len() == layout.len()
    &&& forall|i: int| 0 <= i < out.len() ==> created_pack(#[trigger] out[i], dir, layout[i], rule)
}

pub proof fn lemma_greedy_take_bound(rule: SizeRule, q: Seq<(Seq<u8>, Seq<u8>)>, max: int, acc: int)
    ensures
        0 <= greedy_take(rule, q, max, acc) <= q.len(),
    decreases q.len(),
{
    if q.len() > 0 && acc + item_weight(rule, q[0]) <= max {
        lemma_greedy_take_bound(rule, q.drop_first(), max, acc + item_weight(rule, q[0]));
    }
}

pub proof fn lemma_big_suffix_bound(rule: SizeRule, p: Seq<(Seq<u8>, Seq<u8>)>, max: int)
    ensures
        big_suffix_len(rule, p, max) <= p.len(),
    decreases p.len(),
{
    if p.len() > 0 && is_big(rule, p.last(), max) {
        lemma_big_suffix_bound(rule, p.drop_last(), max);
    }
}

fn weight_of(rule: SizeRule, it: &Item) -> (w: u128)
    ensures
        w == item_weight(rule, item_view(*it)),
        w <= 2 * (usize::MAX as u128),
{
    match rule {
        SizeRule::Legacy => it.1.len() as u128,
        SizeRule::Split => it.0.len() as u128 + it.1.len() as u128,
    }
}

fn big(rule: SizeRule, it: &Item, max: usize) -> (b: bool)
    ensures
        b == is_big(rule, item_view(*it), max as int),
{
    match rule {
        SizeRule::Legacy => 2 * (it.1.len() as u128) > max as u128,
        SizeRule::Split => 5 * (it.0.len() as u128 + it.1.len() as u128) > 4 * (max as u128),
    }
}

/// Makes the new pack in `dir` that holds `keys` and `contents`.
fn make_pack(dir: &String, keys: Vec<Vec<u8>>, contents: Vec<Vec<u8>>, rule: SizeRule) -> (e: (
    PackFileMeta,
    Pack,
))
    requires
        rule is Split ==> total_len(byte_seqs(keys@)) + total_len(byte_seqs(contents@))
            <= usize::MAX,
    ensures
        e.1.keys == PackKeysState::Value(keys),
        e.1.contents == PackContentsState::Value(contents),
        is_hex_name(e.0.name@),
        e.1.path@ == spec_join(dir@, e.0.name@),
        e.0.hash@ == Seq::<char>::empty(),
        !e.0.writed,
        e.0.size == (if rule is Split {
            spec_pack_size(e.1)
        } else {
            0
        }),
{
    let name = get_name(&keys, &contents);
    let path = join_path(dir, &name);
    let pack = Pack {
        path,
        keys: PackKeysState::Value(keys),
        contents: PackContentsState::Value(contents),
    };
    let size: usize = match rule {
        SizeRule::Split => pack.size(),
        SizeRule::Legacy => 0,
    };
    (PackFileMeta { hash: String::new(), name, size, writed: false }, pack)
}

/// Lays `items` out in new packs in `dir`: the items are sorted by the length of
/// their values; big items at the end get a pack each, largest first; the rest
/// are packed greedily in the order of `packing_queue`, each pack taking items
/// while their weight stays within `max`.
pub fn create_packs(dir: &String, max: usize, items: Vec<Item>, rule: SizeRule) -> (out: Vec<
    (PackFileMeta, Pack),
>)
    requires
        no_stall(rule, items_view(items@), max as int),
        rule is Split ==> forall|i: int|
            0 <= i < items@.len() ==> #[trigger] items@[i].0@.len() + items@[i].1@.len()
                <= usize::MAX,
    ensures
        exists|p: Seq<(Seq<u8>, Seq<u8>)>|
            {
                &&& value_len_sorted(p)
                &&& p.to_multiset() == items_view(items@).to_multiset()
                &&& created_packs(out@, dir@, #[trigger] pack_layout(rule, p, max as int), rule)
            },
{
    let ghost orig = items_view(items@);
    let sorted = sort_by_value_len(items);
    let ghost p = items_view(sorted@);
    let n = sorted.len();
    proof {
        lemma_contains_transfer(orig, p);
        lemma_big_suffix_bound(rule, p, max as int);
    }
    let mut m: usize = n;
    proof {
        assert(p.take(n as int) =~= p);
        if rule is Split {
            assert forall|a: (Seq<u8>, Seq<u8>)| p.contains(a) implies (a.0.len() + a.1.len())
                <= usize::MAX by {
                assert(orig.contains(a));
                let i = choose|i: int| 0 <= i < orig.len() && orig[i] == a;
                assert(items@[i].0@.len() + items@[i].1@.len() <= usize::MAX);
            }
        }
    }
    while m > 0 && big(rule, &sorted[m - 1], max)
        invariant
            m <= n == sorted@.len(),
            p == items_view(sorted@),
            big_suffix_len(rule, p, max as int) == (n - m) + big_suffix_len(
                rule,
                p.take(m as int),
                max as int,
            ),
        decreases m,
    {
        proof {
            assert(p.take(m as int).drop_last() =~= p.take(m - 1));
            assert(p.take(m as int).last() == p[m - 1]);
        }
        m = m - 1;
    }
    proof {
        if m > 0 {
            assert(p.take(m as int).last() == p[m - 1]);
        }
        assert(big_suffix_len(rule, p.take(m as int), max as int) == 0);
    }
    let ghost singles = Seq::new(
        (n - m) as nat,
        |i: int| seq![p[p.len() - 1 - i]],
    );
    let mut rest = sorted;
    let mut out: Vec<(PackFileMeta, Pack)> = Vec::new();
    while rest.len() > m
        invariant
            m <= rest@.len() <= n,
            n == p.len(),
            items_view(rest@) == p.take(rest@.len() as int),
            singles == Seq::new((n - m) as nat, |i: int| seq![p[p.len() - 1 - i]]),
            out@.len() == n - rest@.len(),
            forall|i: int|
                0 <= i < out@.len() ==> created_pack(#[trigger] out@[i], dir@, singles[i], rule),
            rule is Split ==> forall|a: (Seq<u8>, Seq<u8>)|
                #[trigger] p.contains(a) ==> (a.0.len() + a.1.len()) <= usize::MAX,
        decreases rest@.len(),
    {
        let ghost before = items_view(rest@);
        let it = rest.pop().unwrap();
        proof {
            assert(items_view(rest@) =~= p.take(rest@.len() as int));
            assert(before.last() == item_view(it));
            assert(item_view(it) == p[rest@.len() as int]);
            assert(p.contains(p[rest@.len() as int]));
        }
        let (k, v) = it;
        let mut keys: Vec<Vec<u8>> = Vec::new();
        keys.push(k);
        let mut contents: Vec<Vec<u8>> = Vec::new();
        contents.push(v);
        proof {
            lemma_total_len_push(Seq::empty(), keys@[0]@);
            lemma_total_len_push(Seq::empty(), contents@[0]@);
            assert(byte_seqs(keys@) =~= Seq::<Seq<u8>>::empty().push(keys@[0]@));
            assert(byte_seqs(contents@) =~= Seq::<Seq<u8>>::empty().push(contents@[0]@));
        }
        let e = make_pack(dir, keys, contents, rule);
        proof {
            let idx = out@.len() as int;
            assert(singles[idx] == seq![p[rest@.len() as int]]);
            assert(pack_keys(e.1) =~= singles[idx].map_values(|it: (Seq<u8>, Seq<u8>)| it.0));
            assert(pack_contents(e.1) =~= singles[idx].map_values(
                |it: (Seq<u8>, Seq<u8>)| it.1,
            ));
        }
        out.push(e);
    }
    // The queue is popped from its end: under the split rule the remaining
    // items are reversed so that the shortest value comes out first; under the
    // first rule the longest comes out first.
    let ghost q_all = packing_queue(rule, p, m as int);
    let ghost pm = p.take(m as int);
    proof {
        assert(items_view(rest@) =~= pm);
    }
    let mut queue: Vec<Item> = match rule {
        SizeRule::Split => {
            let mut rev: Vec<Item> = Vec::new();
            while rest.len() > 0
                invariant
                    items_view(rest@) + items_view(rev@).reverse() == pm,
                decreases rest@.len(),
            {
                let ghost r0 = items_view(rest@);
                let ghost q0 = items_view(rev@);
                let it = rest.pop().unwrap();
                rev.push(it);
                proof {
                    assert(items_view(rest@) =~= r0.drop_last());
                    assert(items_view(rev@) =~= q0.push(r0.last()));
                    assert(items_view(rev@).reverse() =~= seq![r0.last()] + q0.reverse());
                    assert(r0 =~= r0.drop_last() + seq![r0.last()]);
                    assert(items_view(rest@) + items_view(rev@).reverse() =~= r0 + q0.reverse());
                }
            }
            proof {
                assert(items_view(rev@).reverse() =~= pm);
                assert(items_view(rev@) =~= pm.reverse());
            }
            rev
        },
        SizeRule::Legacy => {
            proof {
                assert(pm.reverse().reverse() =~= pm);
            }
            rest
        },
    };
    proof {
        assert(items_view(queue@) =~= q_all.reverse());
        lemma_prefix_fits(rule, p, m as int, max as int);
        assert forall|a: (Seq<u8>, Seq<u8>)| q_all.contains(a) implies #[trigger] item_weight(
            rule,
            a,
        ) <= max by {
            let i = choose|i: int| 0 <= i < q_all.len() && q_all[i] == a;
            if rule is Split {
                assert(pm.contains(a));
            } else {
                assert(pm[pm.len() - 1 - i] == a);
                assert(pm.contains(a));
            }
        }
        assert(q_all.skip(0) =~= q_all);
        assert(big_suffix_len(rule, p, max as int) == n - m);
        assert(singles =~= Seq::new(
            big_suffix_len(rule, p, max as int),
            |i: int| seq![p[p.len() - 1 - i]],
        ));
    }
    let ghost mut done: Seq<Seq<(Seq<u8>, Seq<u8>)>> = singles;
    let ghost mut consumed: int = 0;
    while queue.len() > 0
        invariant
            0 <= consumed <= q_all.len(),
            q_all.len() <= usize::MAX,
            items_view(queue@) == q_all.skip(consumed).reverse(),
            done + greedy_batches(rule, q_all.skip(consumed), max as int) == pack_layout(
                rule,
                p,
                max as int,
            ),
            out@.len() == done.len(),
            forall|i: int|
                0 <= i < out@.len() ==> created_pack(#[trigger] out@[i], dir@, done[i], rule),
            forall|a: (Seq<u8>, Seq<u8>)|
                q_all.contains(a) ==> #[trigger] item_weight(rule, a) <= max,
        decreases queue@.len(),
    {
        let ghost q0 = q_all.skip(consumed);
        let mut bk: Vec<Vec<u8>> = Vec::new();
        let mut bc: Vec<Vec<u8>> = Vec::new();
        let mut bs: u128 = 0;
        let mut j: usize = 0;
        proof {
            assert(q0.skip(0) =~= q0);
            assert(q0.take(0) =~= Seq::<(Seq<u8>, Seq<u8>)>::empty());
            assert(items_view(queue@).len() == queue@.len());
        }
        while queue.len() > 0
            invariant
                q0 == q_all.skip(consumed),
                0 <= consumed <= q_all.len(),
                j <= q0.len(),
                items_view(queue@) == q0.skip(j as int).reverse(),
                byte_seqs(bk@) == q0.take(j as int).map_values(|it: (Seq<u8>, Seq<u8>)| it.0),
                byte_seqs(bc@) == q0.take(j as int).map_values(|it: (Seq<u8>, Seq<u8>)| it.1),
                bs <= max,
                j == 0 ==> bs == 0,
                j + queue@.len() == q0.len(),
                q_all.len() <= usize::MAX,
                rule is Split ==> total_len(byte_seqs(bk@)) + total_len(byte_seqs(bc@)) == bs,
                greedy_take(rule, q0, max as int, 0) == j + greedy_take(
                    rule,
                    q0.skip(j as int),
                    max as int,
                    bs as int,
                ),
            ensures
                queue@.len() == 0 || bs + item_weight(rule, q0.skip(j as int)[0]) > max,
            decreases queue@.len(),
        {
            let last = &queue[queue.len() - 1];
            proof {
                let s = q0.skip(j as int);
                let qv = items_view(queue@);
                assert(qv == s.reverse());
                assert(qv.len() == s.len());
                assert(qv[qv.len() - 1] == item_view(queue@[queue@.len() - 1]));
                assert(s.reverse()[s.len() - 1] == s[0]);
                assert(item_view(*last) == s[0]);
            }
            if bs + weight_of(rule, last) > max as u128 {
                break ;
            }
            let w = weight_of(rule, last);
            let ghost qv0 = items_view(queue@);
            let it = queue.pop().unwrap();
            let (k, v) = it;
            proof {
                let s = q0.skip(j as int);
                assert(s.drop_first() =~= q0.skip(j + 1));
                assert(q0.take(j + 1) =~= q0.take(j as int).push(q0[j as int]));
                assert(s[0] == q0[j as int]);
                assert(items_view(queue@) =~= qv0.drop_last());
                assert(qv0 == s.reverse());
                assert(s.reverse().drop_last() =~= s.drop_first().reverse());
                assert(items_view(queue@) =~= q0.skip(j + 1).reverse());
                lemma_total_len_push(byte_seqs(bk@), k@);
                lemma_total_len_push(byte_seqs(bc@), v@);
            }
            let ghost old_bk = byte_seqs(bk@);
            let ghost old_bc = byte_seqs(bc@);
            let ghost kv = k@;
            let ghost vv = v@;
            proof {
                assert(item_view(it) == q0[j as int]);
                assert(kv == q0[j as int].0 && vv == q0[j as int].1);
            }
            bk.push(k);
            bc.push(v);
            proof {
                assert(byte_seqs(bk@) =~= old_bk.push(kv));
                assert(byte_seqs(bc@) =~= old_bc.push(vv));
                assert(q0.take(j + 1).map_values(|it: (Seq<u8>, Seq<u8>)| it.0) =~= q0.take(
                    j as int,
                ).map_values(|it: (Seq<u8>, Seq<u8>)| it.0).push(kv));
                assert(q0.take(j + 1).map_values(|it: (Seq<u8>, Seq<u8>)| it.1) =~= q0.take(
                    j as int,
                ).map_values(|it: (Seq<u8>, Seq<u8>)| it.1).push(vv));
                assert(items_view(queue@).len() == queue@.len());
            }
            bs = bs + w;
            j = j + 1;
            proof {
                assert(byte_seqs(bk@) =~= q0.take(j as int).map_values(
                    |it: (Seq<u8>, Seq<u8>)| it.0,
                ));
                assert(byte_seqs(bc@) =~= q0.take(j as int).map_values(
                    |it: (Seq<u8>, Seq<u8>)| it.1,
                ));
            }
        }
        proof {
            // the packing has taken exactly the greedy number of items
            if j < q0.len() {
                assert(q0.skip(j as int).len() > 0);
            } else {
                assert(q0.skip(j as int).len() == 0);
            }
            assert(greedy_take(rule, q0.skip(j as int), max as int, bs as int) == 0);
            // and at least one item: the first one fits on its own
            if j == 0 {
                assert(bs == 0);
                assert(q0.skip(0) =~= q0);
                assert(q0.len() > 0);
                assert(q0[0] == q_all[consumed]);
                assert(q_all.contains(q_all[consumed]));
                assert(false);
            }
            assert(bk@.len() == j) by {
                assert(byte_seqs(bk@).len() == bk@.len());
            }
            lemma_greedy_take_bound(rule, q0, max as int, 0);
        }
        if bk.len() > 0 {
            let e = make_pack(dir, bk, bc, rule);
            out.push(e);
            proof {
                let t = j as int;
                assert(greedy_batches(rule, q0, max as int) == seq![q0.take(t)] + greedy_batches(
                    rule,
                    q0.skip(t),
                    max as int,
                ));
                assert(q0.skip(t) =~= q_all.skip(consumed + t));
                assert(done.push(q0.take(t)) + greedy_batches(rule, q0.skip(t), max as int)
                    =~= done + greedy_batches(rule, q0, max as int));
                done = done.push(q0.take(t));
                consumed = consumed + t;
            }
        }
    }
    proof {
        assert(q_all.skip(consumed).len() == 0);
        assert(greedy_batches(rule, q_all.skip(consumed), max as int) =~= Seq::<
            Seq<(Seq<u8>, Seq<u8>)>,
        >::empty());
        assert(done =~= pack_layout(rule, p, max as int));
        assert(created_packs(out@, dir@, pack_layout(rule, p, max as int), rule));
    }
    out
}

/// Under the first rule the layout never stalls: an item heavier than the
/// maximal size is big, and every item that is not big is lighter.
pub proof fn lemma_legacy_no_stall(s: Seq<(Seq<u8>, Seq<u8>)>, max: int)
    requires
        max >= 0,
    ensures
        no_stall(SizeRule::Legacy, s, max),
{
}

/// No stall holds of every part of a sequence without stall.
pub proof fn lemma_no_stall_subset(
    rule: SizeRule,
    s: Seq<(Seq<u8>, Seq<u8>)>,
    t: Seq<(Seq<u8>, Seq<u8>)>,
    max: int,
)
    requires
        no_stall(rule, t, max),
        forall|a: (Seq<u8>, Seq<u8>)| s.contains(a) ==> t.contains(a),
    ensures
        no_stall(rule, s, max),
{
    assert forall|a: (Seq<u8>, Seq<u8>), b: (Seq<u8>, Seq<u8>)|
        s.contains(a) && s.contains(b) && item_weight(rule, a) > max && !is_big(
            rule,
            b,
            max,
        ) implies b.1.len() < a.1.len() by {
        assert(t.contains(a) && t.contains(b));
    }
}

/// Items of two sequences with the same multiset are the same items.
pub proof fn lemma_contains_transfer(a: Seq<(Seq<u8>, Seq<u8>)>, b: Seq<(Seq<u8>, Seq<u8>)>)
    requires
        a.to_multiset() == b.to_multiset(),
    ensures
        forall|x: (Seq<u8>, Seq<u8>)| a.contains(x) <==> b.contains(x),
{
    a.to_multiset_ensures();
    b.to_multiset_ensures();
    assert forall|x: (Seq<u8>, Seq<u8>)| a.contains(x) <==> b.contains(x) by {
        assert(a.contains(x) <==> a.to_multiset().count(x) > 0);
        assert(b.contains(x) <==> b.to_multiset().count(x) > 0);
    }
}

/// With no stall, every item before the big suffix of a sorted sequence fits
/// in a pack on its own.
pub proof fn lemma_prefix_fits(rule: SizeRule, p: Seq<(Seq<u8>, Seq<u8>)>, m: int, max: int)
    requires
        value_len_sorted(p),
        no_stall(rule, p, max),
        0 <= m <= p.len(),
        m > 0 ==> !is_big(rule, p[m - 1], max),
        max >= 0,
    ensures
        forall|a: (Seq<u8>, Seq<u8>)| p.take(m).contains(a) ==> #[trigger] item_weight(rule, a) <= max,
{
    assert forall|a: (Seq<u8>, Seq<u8>)| p.take(m).contains(a) implies #[trigger] item_weight(
        rule,
        a,
    ) <= max by {
        let i = choose|i: int| 0 <= i < p.take(m).len() && p.take(m)[i] == a;
        assert(p[i] == a);
        if item_weight(rule, a) > max {
            assert(is_big(rule, a, max));
            let b = p[m - 1];
            assert(p.contains(a));
            assert(p.contains(b));
            assert(b.1.len() < a.1.len());
            assert(a.1.len() <= b.1.len());
        }
    }
}

} // verus!
