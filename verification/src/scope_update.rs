use vstd::prelude::*;

use crate::bucket::{bucket_for, bucket_computable, spec_choose_bucket};
use crate::meta::{PackFileMeta, ScopeMeta};
use crate::model::{clone_bytes, contains_bytes, byte_seqs, bytes_eq};
use crate::hash::choose_hashed_bucket;
use crate::pack::{Pack, PackKeysState, PackContentsState, pack_items, pack_keys, pack_contents};
use crate::packing::SizeRule;
use crate::scope::{PackScope, ScopeMetaState, ScopePacksState, bucket_items};
use crate::text::{join_path, spec_join, usize_to_string, ascii_chars, spec_decimal};
use crate::update::{
    Update, update_view, updates_view, update_packs, update_outcome, update_limits_ok,
    removed_flags, select_by, PackIncrementalResult,
};

verus! {

/// A vector in reverse order.
pub fn reverse_vec<T>(v: Vec<T>) -> (r: Vec<T>)
    ensures
        r@ == v@.reverse(),
{
    let ghost v0 = v@;
    let mut rest = v;
    let mut out: Vec<T> = Vec::new();
    while rest.len() > 0
        invariant
            rest@ + out@.reverse() == v0,
        decreases rest@.len(),
    {
        let ghost r0 = rest@;
        let ghost o0 = out@;
        let x = rest.pop().unwrap();
        out.push(x);
        proof {
            assert(out@.reverse() =~= seq![r0.last()] + o0.reverse());
            assert(r0 =~= rest@ + seq![r0.last()]);
            assert(rest@ + out@.reverse() =~= r0 + o0.reverse());
        }
    }
    proof {
        assert(out@.reverse() =~= v0);
        assert(out@.reverse().reverse() =~= out@);
    }
    out
}

/// The metas and packs of a bucket, paired.
pub open spec fn zipped(metas: Seq<PackFileMeta>, packs: Seq<Pack>) -> Seq<(PackFileMeta, Pack)> {
    Seq::new(metas.len(), |i: int| (metas[i], packs[i]))
}

pub fn zip_bucket(metas: Vec<PackFileMeta>, packs: Vec<Pack>) -> (r: Vec<(PackFileMeta, Pack)>)
    requires
        metas@.len() == packs@.len(),
    ensures
        r@ == zipped(metas@, packs@),
{
    let ghost m0 = metas@;
    let ghost p0 = packs@;
    let n = metas.len();
    let mut mr = reverse_vec(metas);
    let mut pr = reverse_vec(packs);
    let mut out: Vec<(PackFileMeta, Pack)> = Vec::new();
    let mut i: usize = 0;
    while mr.len() > 0
        invariant
            m0.len() == p0.len(),
            m0.len() == n,
            i <= m0.len(),
            mr@ == m0.skip(i as int).reverse(),
            pr@ == p0.skip(i as int).reverse(),
            out@ == zipped(m0.take(i as int), p0.take(i as int)),
        decreases mr@.len(),
    {
        let ghost mr0 = mr@;
        let ghost pr0 = pr@;
        let m = mr.pop().unwrap();
        proof {
            assert(pr@.len() > 0);
        }
        let p = pr.pop().unwrap();
        proof {
            let sm = m0.skip(i as int);
            let sp = p0.skip(i as int);
            assert(mr0 == sm.reverse());
            assert(m == sm[0]);
            assert(p == sp[0]);
            assert(mr@ =~= m0.skip(i + 1).reverse());
            assert(pr@ =~= p0.skip(i + 1).reverse());
        }
        out.push((m, p));
        proof {
            assert(out@ =~= zipped(m0.take(i + 1), p0.take(i + 1)));
        }
        i = i + 1;
    }
    proof {
        assert(m0.take(i as int) =~= m0);
        assert(p0.take(i as int) =~= p0);
    }
    out
}

/// Whether an update's key falls in bucket `b`.
pub open spec fn update_in(place: spec_fn(Seq<u8>) -> int, b: int) -> spec_fn((Seq<u8>, Option<Seq<u8>>)) -> bool {
    |x: (Seq<u8>, Option<Seq<u8>>)| place(x.0) == b
}

/// Whether an item's key falls in bucket `b`.
pub open spec fn item_in(place: spec_fn(Seq<u8>) -> int, b: int) -> spec_fn((Seq<u8>, Seq<u8>)) -> bool {
    |x: (Seq<u8>, Seq<u8>)| place(x.0) == b
}

/// Whether a key falls in bucket `b`.
pub open spec fn key_in(place: spec_fn(Seq<u8>) -> int, b: int) -> spec_fn(Seq<u8>) -> bool {
    |k: Seq<u8>| place(k) == b
}

/// The updates whose key falls in bucket `b`.
pub open spec fn bucket_updates(
    place: spec_fn(Seq<u8>) -> int,
    u: Seq<(Seq<u8>, Option<Seq<u8>>)>,
    b: int,
) -> Seq<(Seq<u8>, Option<Seq<u8>>)> {
    u.filter(update_in(place, b))
}

pub fn clone_update(u: &Update) -> (r: Update)
    ensures
        update_view(r) == update_view(*u),
{
    let v = match &u.1 {
        Some(v) => Some(clone_bytes(v)),
        None => None,
    };
    (clone_bytes(&u.0), v)
}

/// The bucket of each update under a rule, in order. An update whose key an
/// earlier update has takes the bucket of that one, so equal keys always
/// share a bucket.
pub fn update_buckets(rule: SizeRule, updates: &Vec<Update>, total: usize) -> (r: Vec<usize>)
    requires
        total > 0,
        forall|i: int| 0 <= i < updates@.len() ==> bucket_computable(rule, #[trigger] updates@[i].0@),
    ensures
        r@.len() == updates@.len(),
        forall|i: int|
            0 <= i < r@.len() ==> #[trigger] r@[i] < total && (rule is Split ==> r@[i]
                == spec_choose_bucket(updates@[i].0@, total)),
        forall|i: int, j: int|
            0 <= i < r@.len() && 0 <= j < r@.len() && updates@[i].0@ == updates@[j].0@ ==> #[trigger] r@[i]
                == #[trigger] r@[j],
{
    let mut r: Vec<usize> = Vec::new();
    let mut i: usize = 0;
    while i < updates.len()
        invariant
            total > 0,
            i <= updates@.len(),
            r@.len() == i,
            forall|k: int| 0 <= k < updates@.len() ==> bucket_computable(rule, #[trigger] updates@[k].0@),
            forall|k: int|
                0 <= k < i ==> #[trigger] r@[k] < total && (rule is Split ==> r@[k]
                    == spec_choose_bucket(updates@[k].0@, total)),
            forall|k1: int, k2: int|
                0 <= k1 < i && 0 <= k2 < i && updates@[k1].0@ == updates@[k2].0@ ==> #[trigger] r@[k1]
                    == #[trigger] r@[k2],
        decreases updates@.len() - i,
    {
        let mut m: usize = 0;
        let mut found = false;
        while m < i
            invariant_except_break
                !found,
            invariant
                m <= i,
                i < updates@.len(),
                forall|k: int| 0 <= k < m ==> updates@[k].0@ != updates@[i as int].0@,
            ensures
                m <= i,
                found ==> m < i && updates@[m as int].0@ == updates@[i as int].0@,
                !found ==> forall|k: int| 0 <= k < i ==> updates@[k].0@ != updates@[i as int].0@,
            decreases i - m,
        {
            if bytes_eq(&updates[m].0, &updates[i].0) {
                found = true;
                break;
            }
            m = m + 1;
        }
        let b = if found {
            r[m]
        } else {
            bucket_for(rule, &updates[i].0, total)
        };
        r.push(b);
        i = i + 1;
    }
    r
}

/// Whether the packs `ps` of a bucket hold an item with key `k`.
pub open spec fn holds_key(ps: Seq<Pack>, k: Seq<u8>) -> bool {
    exists|x: (Seq<u8>, Seq<u8>)| #[trigger] bucket_items(ps).contains(x) && x.0 == k
}

proof fn lemma_holds_key_push(ps: Seq<Pack>, j: int, k: Seq<u8>)
    requires
        0 <= j < ps.len(),
    ensures
        holds_key(ps.take(j + 1), k) <==> holds_key(ps.take(j), k) || exists|x: (Seq<u8>, Seq<u8>)|
            #[trigger] pack_items(ps[j]).contains(x) && x.0 == k,
{
    broadcast use vstd::seq_lib::lemma_seq_concat_contains_all_elements;

    assert(ps.take(j + 1).drop_last() =~= ps.take(j));
    assert(bucket_items(ps.take(j + 1)) == bucket_items(ps.take(j)) + pack_items(ps[j]));
    if holds_key(ps.take(j + 1), k) {
        let x = choose|x: (Seq<u8>, Seq<u8>)|
            #[trigger] bucket_items(ps.take(j + 1)).contains(x) && x.0 == k;
        if bucket_items(ps.take(j)).contains(x) {
        } else {
            assert(pack_items(ps[j]).contains(x));
        }
    }
    if exists|x: (Seq<u8>, Seq<u8>)| #[trigger] pack_items(ps[j]).contains(x) && x.0 == k {
        let x = choose|x: (Seq<u8>, Seq<u8>)| #[trigger] pack_items(ps[j]).contains(x) && x.0 == k;
        assert(bucket_items(ps.take(j + 1)).contains(x));
    }
    if holds_key(ps.take(j), k) {
        let x = choose|x: (Seq<u8>, Seq<u8>)| #[trigger] bucket_items(ps.take(j)).contains(x) && x.0 == k;
        assert(bucket_items(ps.take(j + 1)).contains(x));
    }
}

/// Whether one pack holds an item with key `key`.
fn pack_has_key(p: &Pack, key: &Vec<u8>) -> (r: bool)
    ensures
        r == exists|x: (Seq<u8>, Seq<u8>)| #[trigger] pack_items(*p).contains(x) && x.0 == key@,
{
    match (&p.keys, &p.contents) {
        (PackKeysState::Value(ks), PackContentsState::Value(cs)) => {
            if ks.len() != cs.len() {
                proof {
                    assert(pack_keys(*p).len() == ks@.len());
                    assert(pack_contents(*p).len() == cs@.len());
                }
                return false;
            }
            let r = contains_bytes(ks, key);
            proof {
                let items = pack_items(*p);
                assert(pack_keys(*p) == byte_seqs(ks@));
                assert(pack_contents(*p).len() == cs@.len());
                if r {
                    let i = choose|i: int| 0 <= i < byte_seqs(ks@).len() && byte_seqs(ks@)[i] == key@;
                    assert(items[i].0 == key@);
                    assert(items.contains(items[i]));
                }
                if exists|x: (Seq<u8>, Seq<u8>)| #[trigger] items.contains(x) && x.0 == key@ {
                    let x = choose|x: (Seq<u8>, Seq<u8>)| #[trigger] items.contains(x) && x.0 == key@;
                    let i = choose|i: int| 0 <= i < items.len() && items[i] == x;
                    assert(byte_seqs(ks@)[i] == key@);
                }
            }
            r
        },
        _ => false,
    }
}

/// Whether the packs of a bucket hold an item with key `key`.
pub fn bucket_has_key(ps: &Vec<Pack>, key: &Vec<u8>) -> (r: bool)
    ensures
        r == holds_key(ps@, key@),
{
    let mut j: usize = 0;
    proof {
        assert(ps@.take(0) =~= Seq::<Pack>::empty());
        assert(bucket_items(ps@.take(0)) =~= Seq::<(Seq<u8>, Seq<u8>)>::empty());
    }
    while j < ps.len()
        invariant
            j <= ps@.len(),
            !holds_key(ps@.take(j as int), key@),
        decreases ps@.len() - j,
    {
        let found = pack_has_key(&ps[j], key);
        proof {
            lemma_holds_key_push(ps@, j as int, key@);
        }
        if found {
            proof {
                lemma_holds_key_prefix(ps@, j + 1, key@);
            }
            return true;
        }
        j = j + 1;
    }
    proof {
        assert(ps@.take(j as int) =~= ps@);
    }
    false
}

/// A key that a prefix of the packs holds, the whole bucket holds.
proof fn lemma_holds_key_prefix(ps: Seq<Pack>, n: int, k: Seq<u8>)
    requires
        0 <= n <= ps.len(),
        holds_key(ps.take(n), k),
    ensures
        holds_key(ps, k),
    decreases ps.len() - n,
{
    if n < ps.len() {
        lemma_holds_key_push(ps, n, k);
        lemma_holds_key_prefix(ps, n + 1, k);
    } else {
        assert(ps.take(n) =~= ps);
    }
}

/// The bucket of each update under the first strategy: the bucket its key
/// hashes to, unless another bucket already holds the key, which then takes
/// the update, so that a key never ends up in two buckets (the hashes differ
/// between 32- and 64-bit machines, and a scope may have been written on the
/// other kind).
pub fn legacy_buckets(scope: &PackScope, updates: &Vec<Update>) -> (r: Vec<usize>)
    requires
        scope_shape_ok(*scope),
    ensures
        r@.len() == updates@.len(),
        forall|i: int|
            0 <= i < r@.len() ==> #[trigger] r@[i] < scope.options.buckets && ((exists|b: int|
                0 <= b < scope.options.buckets && holds_key(
                    (scope.packs->Value_0)@[b]@,
                    updates@[i].0@,
                )) ==> holds_key((scope.packs->Value_0)@[r@[i] as int]@, updates@[i].0@)),
{
    let total = scope.options.buckets;
    let bs = scope.packs.expect_value();
    let mut r: Vec<usize> = Vec::new();
    let mut i: usize = 0;
    while i < updates.len()
        invariant
            scope_shape_ok(*scope),
            *bs == scope.packs->Value_0,
            total == scope.options.buckets,
            i <= updates@.len(),
            r@.len() == i,
            forall|k: int|
                0 <= k < i ==> #[trigger] r@[k] < total && ((exists|b: int|
                    0 <= b < total && holds_key(bs@[b]@, updates@[k].0@)) ==> holds_key(
                    bs@[r@[k] as int]@,
                    updates@[k].0@,
                )),
        decreases updates@.len() - i,
    {
        let key = &updates[i].0;
        let h = choose_hashed_bucket(key, total);
        let mut b = h;
        if !bucket_has_key(&bs[h], key) {
            let mut c: usize = 0;
            let mut found = false;
            while c < total && !found
                invariant
                    bs@.len() == total,
                    c <= total,
                    b < total,
                    found ==> holds_key(bs@[b as int]@, key@),
                    !found ==> forall|d: int| 0 <= d < c ==> !holds_key(#[trigger] bs@[d]@, key@),
                decreases total - c,
            {
                if bucket_has_key(&bs[c], key) {
                    b = c;
                    found = true;
                }
                c = c + 1;
            }
        }
        r.push(b);
        i = i + 1;
    }
    r
}

/// The updates whose key falls in bucket `b`, where `buckets` holds the
/// bucket of each update as `place` puts it.
pub fn updates_for_bucket(
    updates: &Vec<Update>,
    buckets: &Vec<usize>,
    b: usize,
    Ghost(place): Ghost<spec_fn(Seq<u8>) -> int>,
) -> (r: Vec<Update>)
    requires
        buckets@.len() == updates@.len(),
        forall|i: int| 0 <= i < updates@.len() ==> buckets@[i] == place(#[trigger] updates@[i].0@),
    ensures
        updates_view(r@) == bucket_updates(place, updates_view(updates@), b as int),
{
    let ghost u = updates_view(updates@);
    let ghost f = update_in(place, b as int);
    let mut out: Vec<Update> = Vec::new();
    let mut i: usize = 0;
    proof {
        assert(u.take(0) =~= Seq::<(Seq<u8>, Option<Seq<u8>>)>::empty());
        assert(u.take(0).filter(f) =~= Seq::<(Seq<u8>, Option<Seq<u8>>)>::empty());
    }
    while i < updates.len()
        invariant
            buckets@.len() == updates@.len(),
            forall|k: int| 0 <= k < updates@.len() ==> buckets@[k] == place(#[trigger] updates@[k].0@),
            i <= updates@.len(),
            u == updates_view(updates@),
            f == update_in(place, b as int),
            updates_view(out@) == u.take(i as int).filter(f),
        decreases updates@.len() - i,
    {
        proof {
            assert(u.take(i + 1) =~= u.take(i as int).push(u[i as int]));
            u.take(i as int).lemma_filter_push(u[i as int], f);
            assert(u[i as int].0 == updates@[i as int].0@);
        }
        if buckets[i] == b {
            let c = clone_update(&updates[i]);
            let ghost ob = updates_view(out@);
            out.push(c);
            proof {
                assert(updates_view(out@) =~= ob.push(update_view(c)));
            }
        }
        i = i + 1;
    }
    proof {
        assert(u.take(i as int) =~= u);
    }
    out
}

/// The directory of bucket `b` inside the scope directory.
pub open spec fn bucket_dir(path: Seq<char>, b: int) -> Seq<char> {
    spec_join(path, ascii_chars(spec_decimal(b as nat)))
}

/// The metas and the packs of the scope agree in number, bucket by bucket,
/// and there are as many buckets as the options ask for.
pub open spec fn scope_shape_ok(s: PackScope) -> bool {
    &&& s.meta is Value
    &&& s.packs is Value
    &&& s.options.buckets > 0
    &&& s.meta->Value_0.packs@.len() == s.options.buckets
    &&& s.packs->Value_0@.len() == s.options.buckets
    &&& forall|b: int|
        0 <= b < s.options.buckets ==> (#[trigger] s.meta->Value_0.packs@[b])@.len()
            == s.packs->Value_0@[b]@.len()
}

/// The metas and packs of bucket `b`, paired.
pub open spec fn scope_pairs(s: PackScope, b: int) -> Seq<(PackFileMeta, Pack)> {
    zipped(s.meta->Value_0.packs@[b]@, s.packs->Value_0@[b]@)
}

pub open spec fn scope_bucket_updates(
    place: spec_fn(Seq<u8>) -> int,
    s: PackScope,
    u: Seq<(Seq<u8>, Option<Seq<u8>>)>,
    b: int,
) -> Seq<(Seq<u8>, Option<Seq<u8>>)> {
    bucket_updates(place, u, b)
}

/// The packs of bucket `b` that the update keeps.
pub open spec fn kept_pairs(
    rule: SizeRule,
    place: spec_fn(Seq<u8>) -> int,
    s: PackScope,
    u: Seq<(Seq<u8>, Option<Seq<u8>>)>,
    b: int,
) -> Seq<(PackFileMeta, Pack)> {
    let ub = scope_bucket_updates(place, s, u, b);
    select_by(
        scope_pairs(s, b),
        removed_flags(rule, scope_pairs(s, b), ub, s.options.max_pack_size as int),
        false,
    )
}

/// The files of the packs of bucket `b` that the update removes.
pub open spec fn dropped_files(
    rule: SizeRule,
    place: spec_fn(Seq<u8>) -> int,
    s: PackScope,
    u: Seq<(Seq<u8>, Option<Seq<u8>>)>,
    b: int,
) -> Seq<String> {
    let ub = scope_bucket_updates(place, s, u, b);
    select_by(
        scope_pairs(s, b),
        removed_flags(rule, scope_pairs(s, b), ub, s.options.max_pack_size as int),
        true,
    ).map_values(|e: (PackFileMeta, Pack)| e.1.path)
}

/// Files of removed packs over the first `n` buckets that have updates.
pub open spec fn all_dropped(
    rule: SizeRule,
    place: spec_fn(Seq<u8>) -> int,
    s: PackScope,
    u: Seq<(Seq<u8>, Option<Seq<u8>>)>,
    n: int,
) -> Seq<String>
    decreases n,
{
    if n <= 0 {
        Seq::empty()
    } else if scope_bucket_updates(place, s, u, n - 1).len() == 0 {
        all_dropped(rule, place, s, u, n - 1)
    } else {
        all_dropped(rule, place, s, u, n - 1) + dropped_files(rule, place, s, u, n - 1)
    }
}

/// Files of the packs of the buckets with updates, among the first `n`, as
/// the update leaves them: the kept packs and the new ones.
pub open spec fn all_placed(
    rule: SizeRule,
    place: spec_fn(Seq<u8>) -> int,
    s: PackScope,
    am: Seq<Vec<PackFileMeta>>,
    ap: Seq<Vec<Pack>>,
    u: Seq<(Seq<u8>, Option<Seq<u8>>)>,
    n: int,
) -> Seq<String>
    decreases n,
{
    if n <= 0 {
        Seq::empty()
    } else if scope_bucket_updates(place, s, u, n - 1).len() == 0 {
        all_placed(rule, place, s, am, ap, u, n - 1)
    } else {
        all_placed(rule, place, s, am, ap, u, n - 1) + zipped(am[n - 1]@, ap[n - 1]@).map_values(
            |e: (PackFileMeta, Pack)| e.1.path,
        )
    }
}

/// Whether a removed file stays on the list: when no pack that the update
/// leaves in place lies there. Pack files must not be removed, so this holds
/// of new packs as well as kept ones: a pack is named after its keys, and a
/// repacked pack may take the name of a pack it replaces, whose file the
/// save then writes anew rather than deletes. Under both strategies a file
/// leaves the list exactly when such a pack lies there.
pub open spec fn keep_removed(placed: Seq<String>, f: String) -> bool {
    !placed.map_values(|x: String| x@).contains(f@)
}

/// Bucket `b` after the update: unchanged when no update falls in it, else
/// the kept packs followed by the new ones, as `update_packs` makes them.
pub open spec fn bucket_done(
    rule: SizeRule,
    place: spec_fn(Seq<u8>) -> int,
    s: PackScope,
    u: Seq<(Seq<u8>, Option<Seq<u8>>)>,
    b: int,
    mb: Vec<PackFileMeta>,
    pb: Vec<Pack>,
) -> bool {
    if scope_bucket_updates(place, s, u, b).len() == 0 {
        &&& mb == s.meta->Value_0.packs@[b]
        &&& pb == s.packs->Value_0@[b]
    } else {
        let k = kept_pairs(rule, place, s, u, b).len() as int;
        &&& k <= zipped(mb@, pb@).len()
        &&& update_outcome(
            rule,
            bucket_dir(s.path@, b),
            s.options.max_pack_size as int,
            scope_pairs(s, b),
            scope_bucket_updates(place, s, u, b),
            zipped(mb@, pb@).take(k),
            zipped(mb@, pb@).skip(k),
            dropped_files(rule, place, s, u, b),
        )
    }
}

/// What updating a scope leaves, each key going to the bucket `place` gives
/// it: the metas other than the packs stay; buckets without updates stay; in
/// a bucket with updates the kept packs come first, then the new packs, as
/// `update_packs` makes them; the removed files are those from before and
/// those of removed packs, but for the files of packs that the update leaves
/// in place.
pub open spec fn scope_update_outcome(
    rule: SizeRule,
    place: spec_fn(Seq<u8>) -> int,
    s: PackScope,
    u: Seq<(Seq<u8>, Option<Seq<u8>>)>,
    after: PackScope,
) -> bool {
    let buckets = s.options.buckets;
    let max = s.options.max_pack_size as int;
    &&& after.path == s.path
    &&& after.options == s.options
    &&& after.meta is Value
    &&& after.packs is Value
    &&& after.meta->Value_0.path == s.meta->Value_0.path
    &&& after.meta->Value_0.buckets == s.meta->Value_0.buckets
    &&& after.meta->Value_0.max_pack_size == s.meta->Value_0.max_pack_size
    &&& after.meta->Value_0.last_modified == s.meta->Value_0.last_modified
    &&& scope_shape_ok(after)
    &&& forall|b: int|
        0 <= b < buckets ==> bucket_done(
            rule,
            place,
            s,
            u,
            b,
            #[trigger] after.meta->Value_0.packs@[b],
            after.packs->Value_0@[b],
        )
    &&& after.removed@ == (s.removed@ + all_dropped(rule, place, s, u, buckets as int)).filter(
        |f: String|
            keep_removed(
                all_placed(
                    rule,
                    place,
                    s,
                    after.meta->Value_0.packs@,
                    after.packs->Value_0@,
                    u,
                    buckets as int,
                ),
                f,
            ),
    )
}

pub fn unzip_pairs(v: Vec<(PackFileMeta, Pack)>) -> (r: (Vec<PackFileMeta>, Vec<Pack>))
    ensures
        r.0@.len() == r.1@.len(),
        zipped(r.0@, r.1@) == v@,
{
    let ghost v0 = v@;
    let n = v.len();
    let mut rev = reverse_vec(v);
    let mut ms: Vec<PackFileMeta> = Vec::new();
    let mut ps: Vec<Pack> = Vec::new();
    let mut i: usize = 0;
    proof {
        assert(v0.skip(0) =~= v0);
        assert(zipped(ms@, ps@) =~= v0.take(0));
    }
    while rev.len() > 0
        invariant
            i <= v0.len(),
            v0.len() == n,
            rev@ == v0.skip(i as int).reverse(),
            ms@.len() == i,
            ps@.len() == i,
            zipped(ms@, ps@) == v0.take(i as int),
        decreases rev@.len(),
    {
        let ghost r0 = rev@;
        let e = rev.pop().unwrap();
        proof {
            let s = v0.skip(i as int);
            assert(r0 == s.reverse());
            assert(e == s[0]);
            assert(rev@ =~= v0.skip(i + 1).reverse());
        }
        let (m, p) = e;
        ms.push(m);
        ps.push(p);
        proof {
            assert(zipped(ms@, ps@) =~= v0.take(i + 1));
        }
        i = i + 1;
    }
    proof {
        assert(v0.take(i as int) =~= v0);
    }
    (ms, ps)
}

fn paths_of(v: &Vec<(PackFileMeta, Pack)>) -> (r: Vec<String>)
    ensures
        r@ == v@.map_values(|e: (PackFileMeta, Pack)| e.1.path),
{
    let mut r: Vec<String> = Vec::new();
    let mut i: usize = 0;
    while i < v.len()
        invariant
            i <= v@.len(),
            r@ == v@.take(i as int).map_values(|e: (PackFileMeta, Pack)| e.1.path),
        decreases v@.len() - i,
    {
        r.push(v[i].1.path.clone());
        proof {
            assert(v@.take(i + 1).map_values(|e: (PackFileMeta, Pack)| e.1.path) =~= v@.take(
                i as int,
            ).map_values(|e: (PackFileMeta, Pack)| e.1.path).push(v@[i as int].1.path));
        }
        i = i + 1;
    }
    proof {
        assert(v@.take(i as int) =~= v@);
    }
    r
}

fn contains_string(v: &Vec<String>, x: &String) -> (r: bool)
    ensures
        r == v@.map_values(|s: String| s@).contains(x@),
{
    let mut i: usize = 0;
    while i < v.len()
        invariant
            i <= v@.len(),
            forall|j: int| 0 <= j < i ==> v@[j]@ != x@,
        decreases v@.len() - i,
    {
        if v[i] == *x {
            proof {
                assert(v@.map_values(|s: String| s@)[i as int] == x@);
            }
            return true;
        }
        i = i + 1;
    }
    proof {
        let mv = v@.map_values(|s: String| s@);
        if mv.contains(x@) {
            let j = choose|j: int| 0 <= j < mv.len() && #[trigger] mv[j] == x@;
            assert(v@[j]@ == x@);
        }
    }
    false
}

fn filter_removed(v: Vec<String>, placed: &Vec<String>) -> (r: Vec<String>)
    ensures
        r@ == v@.filter(|f: String| keep_removed(placed@, f)),
{
    let ghost v0 = v@;
    let ghost pred = |f: String| keep_removed(placed@, f);
    let mut r: Vec<String> = Vec::new();
    let mut i: usize = 0;
    proof {
        assert(v0.take(0) =~= Seq::<String>::empty());
        assert(v0.take(0).filter(pred) =~= Seq::<String>::empty());
    }
    while i < v.len()
        invariant
            v@ == v0,
            i <= v0.len(),
            pred == (|f: String| keep_removed(placed@, f)),
            r@ == v0.take(i as int).filter(pred),
        decreases v0.len() - i,
    {
        proof {
            assert(v0.take(i + 1) =~= v0.take(i as int).push(v0[i as int]));
            v0.take(i as int).lemma_filter_push(v0[i as int], pred);
        }
        let hit = contains_string(placed, &v[i]);
        if !hit {
            r.push(v[i].clone());
        }
        i = i + 1;
    }
    proof {
        assert(v0.take(i as int) =~= v0);
    }
    r
}

/// Applies updates to a scope under a rule: each update goes to the bucket of
/// its key, and each bucket with updates is repacked by `update_packs`.
pub fn update_scope_with(
    scope: &mut PackScope,
    updates: Vec<Update>,
    rule: SizeRule,
    bucket_ids: &Vec<usize>,
    Ghost(place): Ghost<spec_fn(Seq<u8>) -> int>,
)
    requires
        scope_shape_ok(*old(scope)),
        bucket_ids@.len() == updates@.len(),
        forall|i: int| 0 <= i < updates@.len() ==> bucket_ids@[i] == place(#[trigger] updates@[i].0@),
        forall|b: int|
            0 <= b < old(scope).options.buckets ==> update_limits_ok(
                rule,
                #[trigger] scope_pairs(*old(scope), b),
                scope_bucket_updates(place, *old(scope), updates_view(updates@), b),
                old(scope).options.max_pack_size as int,
            ),
    ensures
        scope_update_outcome(rule, place, *old(scope), updates_view(updates@), *final(scope)),
{
    let ghost s0 = *scope;
    let ghost u = updates_view(updates@);
    let ghost m0 = s0.meta->Value_0.packs@;
    let ghost p0 = s0.packs->Value_0@;
    let buckets = scope.options.buckets;
    let max = scope.options.max_pack_size;
    let meta_opt = scope.meta.take_value();
    let mut meta = meta_opt.unwrap();
    let packs_opt = scope.packs.take_value();
    let packs = packs_opt.unwrap();
    let mut meta_buckets: Vec<Vec<PackFileMeta>> = Vec::new();
    std::mem::swap(&mut meta.packs, &mut meta_buckets);
    let mut mrev = reverse_vec(meta_buckets);
    let mut prev = reverse_vec(packs);
    let mut new_m: Vec<Vec<PackFileMeta>> = Vec::new();
    let mut new_p: Vec<Vec<Pack>> = Vec::new();
    let mut dropped: Vec<String> = Vec::new();
    let mut placed: Vec<String> = Vec::new();
    let mut b: usize = 0;
    proof {
        assert(m0.skip(0) =~= m0);
        assert(p0.skip(0) =~= p0);
    }
    while b < buckets
        invariant
            buckets == s0.options.buckets,
            max == s0.options.max_pack_size,
            scope.path == s0.path,
            scope_shape_ok(s0),
            u == updates_view(updates@),
            m0 == s0.meta->Value_0.packs@,
            p0 == s0.packs->Value_0@,
            bucket_ids@.len() == updates@.len(),
            forall|i: int| 0 <= i < updates@.len() ==> bucket_ids@[i] == place(#[trigger] updates@[i].0@),
            forall|b2: int|
                0 <= b2 < buckets ==> update_limits_ok(
                    rule,
                    #[trigger] scope_pairs(s0, b2),
                    scope_bucket_updates(place, s0, u, b2),
                    max as int,
                ),
            b <= buckets,
            mrev@ == m0.skip(b as int).reverse(),
            prev@ == p0.skip(b as int).reverse(),
            new_m@.len() == b,
            new_p@.len() == b,
            forall|b2: int|
                0 <= b2 < b ==> (#[trigger] new_m@[b2])@.len() == new_p@[b2]@.len(),
            forall|b2: int|
                0 <= b2 < b ==> bucket_done(rule, place, s0, u, b2, #[trigger] new_m@[b2], new_p@[b2]),
            dropped@ == all_dropped(rule, place, s0, u, b as int),
            placed@ == all_placed(rule, place, s0, new_m@, new_p@, u, b as int),
        decreases buckets - b,
    {
        let ghost mr0 = mrev@;
        let ghost pr0 = prev@;
        let ghost nm0 = new_m@;
        let ghost np0 = new_p@;
        proof {
            assert(mrev@.len() > 0 && prev@.len() > 0);
        }
        let mb = mrev.pop().unwrap();
        let pb = prev.pop().unwrap();
        proof {
            let sm = m0.skip(b as int);
            let sp = p0.skip(b as int);
            assert(mb == sm[0]);
            assert(pb == sp[0]);
            assert(mb == m0[b as int]);
            assert(pb == p0[b as int]);
            assert(mrev@ =~= m0.skip(b + 1).reverse());
            assert(prev@ =~= p0.skip(b + 1).reverse());
        }
        let ub = updates_for_bucket(&updates, bucket_ids, b, Ghost(place));
        if ub.len() == 0 {
            new_m.push(mb);
            new_p.push(pb);
            proof {
                assert(new_m@.take(b as int) =~= nm0);
                assert(new_p@.take(b as int) =~= np0);
                lemma_placed_frame(rule, place, s0, nm0, np0, new_m@, new_p@, u, b as int);
                assert(updates_view(ub@).len() == ub@.len());
                assert forall|b2: int| 0 <= b2 < b + 1 implies bucket_done(rule, place, s0, u, b2, #[trigger] new_m@[b2], new_p@[b2]) by {
                    if b2 < b {
                        assert(new_m@[b2] == nm0[b2]);
                        assert(new_p@[b2] == np0[b2]);
                    }
                }
            }
        } else {
            let pairs = zip_bucket(mb, pb);
            let bname = usize_to_string(b);
            let dir = join_path(&scope.path, &bname);
            proof {
                assert(pairs@ == scope_pairs(s0, b as int));
            }
            let r = update_packs(&dir, max, rule, pairs, ub);
            let PackIncrementalResult { new_packs, remain_packs, removed_files } = r;
            let ghost kept = remain_packs@;
            let ghost fresh = new_packs@;
            let mut combined = remain_packs;
            let mut fresh_v = new_packs;
            combined.append(&mut fresh_v);
            let mut here = paths_of(&combined);
            let (ms, ps) = unzip_pairs(combined);
            let mut rf = removed_files;
            dropped.append(&mut rf);
            placed.append(&mut here);
            new_m.push(ms);
            new_p.push(ps);
            proof {
                let z = zipped(new_m@[b as int]@, new_p@[b as int]@);
                assert(z == kept + fresh);
                assert(kept == kept_pairs(rule, place, s0, u, b as int));
                assert(z.take(kept.len() as int) =~= kept);
                assert(z.skip(kept.len() as int) =~= fresh);
                assert(new_m@.take(b as int) =~= nm0);
                assert(new_p@.take(b as int) =~= np0);
                lemma_placed_frame(rule, place, s0, nm0, np0, new_m@, new_p@, u, b as int);
                assert(updates_view(ub@).len() == ub@.len());
                assert forall|b2: int| 0 <= b2 < b + 1 implies bucket_done(rule, place, s0, u, b2, #[trigger] new_m@[b2], new_p@[b2]) by {
                    if b2 < b {
                        assert(new_m@[b2] == nm0[b2]);
                        assert(new_p@[b2] == np0[b2]);
                    }
                }
            }
        }
        b = b + 1;
    }
    let mut all_removed: Vec<String> = Vec::new();
    proof {
        assert(scope.removed == s0.removed);
    }
    std::mem::swap(&mut scope.removed, &mut all_removed);
    all_removed.append(&mut dropped);
    let filtered = filter_removed(all_removed, &placed);
    scope.removed = filtered;
    let ghost nm = new_m@;
    let ghost np = new_p@;
    let ghost pl = placed@;
    meta.packs = new_m;
    scope.meta = ScopeMetaState::Value(meta);
    scope.packs = ScopePacksState::Value(new_p);
    proof {
        let after = *scope;
        assert(after.meta->Value_0.packs@ == nm);
        assert(after.packs->Value_0@ == np);
        assert(pl == all_placed(rule, place, s0, nm, np, u, buckets as int));
        assert(after.path == s0.path);
        assert(after.options == s0.options);
        assert(after.meta->Value_0.path == s0.meta->Value_0.path);
        assert(after.meta->Value_0.last_modified == s0.meta->Value_0.last_modified);
        assert(m0.skip(buckets as int).len() == 0);
        assert forall|b2: int| 0 <= b2 < buckets implies (#[trigger] after.meta->Value_0.packs@[b2])@.len() == after.packs->Value_0@[b2]@.len() by {
            assert(new_m@[b2]@.len() == new_p@[b2]@.len());
        }
        assert forall|b2: int| 0 <= b2 < buckets implies bucket_done(rule, place, s0, u, b2, #[trigger] after.meta->Value_0.packs@[b2], after.packs->Value_0@[b2]) by {
            assert(nm[b2] == after.meta->Value_0.packs@[b2]);
        }
        assert(scope_shape_ok(after));
    }
}

/// The placed files of the buckets before `b` do not depend on later buckets.
proof fn lemma_placed_frame(
    rule: SizeRule,
    place: spec_fn(Seq<u8>) -> int,
    s: PackScope,
    am0: Seq<Vec<PackFileMeta>>,
    ap0: Seq<Vec<Pack>>,
    am1: Seq<Vec<PackFileMeta>>,
    ap1: Seq<Vec<Pack>>,
    u: Seq<(Seq<u8>, Option<Seq<u8>>)>,
    n: int,
)
    requires
        0 <= n,
        am0.len() == n,
        ap0.len() == n,
        am1.take(n) == am0,
        ap1.take(n) == ap0,
        am1.len() > n,
        ap1.len() > n,
    ensures
        all_placed(rule, place, s, am1, ap1, u, n) == all_placed(rule, place, s, am0, ap0, u, n),
    decreases n,
{
    if n > 0 {
        assert(am1.take(n - 1) == am0.take(n - 1));
        assert(ap1.take(n - 1) == ap0.take(n - 1));
        assert(am1[n - 1] == am0[n - 1]);
        assert(ap1[n - 1] == ap0[n - 1]);
        lemma_placed_frame_gen(rule, place, s, am0.take(n - 1), ap0.take(n - 1), am0, ap0, u, n - 1);
        lemma_placed_frame_gen(rule, place, s, am0.take(n - 1), ap0.take(n - 1), am1, ap1, u, n - 1);
    }
}

proof fn lemma_placed_frame_gen(
    rule: SizeRule,
    place: spec_fn(Seq<u8>) -> int,
    s: PackScope,
    am0: Seq<Vec<PackFileMeta>>,
    ap0: Seq<Vec<Pack>>,
    am1: Seq<Vec<PackFileMeta>>,
    ap1: Seq<Vec<Pack>>,
    u: Seq<(Seq<u8>, Option<Seq<u8>>)>,
    n: int,
)
    requires
        0 <= n,
        am0.len() == n,
        ap0.len() == n,
        am1.take(n) == am0,
        ap1.take(n) == ap0,
        am1.len() >= n,
        ap1.len() >= n,
    ensures
        all_placed(rule, place, s, am1, ap1, u, n) == all_placed(rule, place, s, am0, ap0, u, n),
    decreases n,
{
    if n > 0 {
        assert(am1[n - 1] == am0[n - 1]) by {
            assert(am1.take(n)[n - 1] == am1[n - 1]);
        }
        assert(ap1[n - 1] == ap0[n - 1]) by {
            assert(ap1.take(n)[n - 1] == ap1[n - 1]);
        }
        assert(am1.take(n - 1) =~= am0.take(n - 1));
        assert(ap1.take(n - 1) =~= ap0.take(n - 1));
        lemma_placed_frame_gen(rule, place, s, am0.take(n - 1), ap0.take(n - 1), am0, ap0, u, n - 1);
        lemma_placed_frame_gen(rule, place, s, am0.take(n - 1), ap0.take(n - 1), am1, ap1, u, n - 1);
    }
}

} // verus!
