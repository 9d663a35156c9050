use vstd::prelude::*;

use crate::error::{StorageError, PackFsErrorOpt, invalid_utf8_message};
use crate::meta::{ScopeMeta, PackFileMeta, clone_pack_file_meta, meta_file_name, current_secs};
use crate::meta_file::{read_scope_meta, spec_read_scope_meta, meta_records, MetaFault};
use crate::packing::SizeRule;
use crate::model::{byte_seqs, clone_bytes};
use crate::pack::{
    Pack, PackKeys, PackContents, PackKeysState, PackContentsState, pack_keys, pack_contents,
};
use crate::pack_file::{
    read_pack_keys, read_pack_contents, keys_header_ok, contents_header_ok, spec_read_pack_keys,
    spec_read_pack_contents,
};
use crate::scope::{PackScope, ScopePacks, ScopePacksState};
use crate::scope_update::scope_shape_ok;
use crate::text::{join_path, spec_join, usize_to_string, ascii_chars, spec_decimal};
use crate::validate::{positions, listed_path};

verus! {

/// The keys read for the pack at a position of a scope.
#[derive(Debug)]
pub struct ReadKeysResult {
    pub bucket_id: usize,
    pub pack_pos: usize,
    pub keys: PackKeys,
}

/// The values read for the pack at a position of a scope.
#[derive(Debug)]
pub struct ReadContentsResult {
    pub bucket_id: usize,
    pub pack_pos: usize,
    pub contents: PackContents,
}

fn copy_byte_vecs(v: &Vec<Vec<u8>>) -> (r: Vec<Vec<u8>>)
    ensures
        byte_seqs(r@) == byte_seqs(v@),
{
    let mut r: Vec<Vec<u8>> = Vec::new();
    let mut i: usize = 0;
    while i < v.len()
        invariant
            i <= v@.len(),
            byte_seqs(r@) == byte_seqs(v@).take(i as int),
        decreases v@.len() - i,
    {
        let ghost r0 = byte_seqs(r@);
        r.push(clone_bytes(&v[i]));
        proof {
            assert(byte_seqs(r@) =~= r0.push(v@[i as int]@));
            assert(byte_seqs(v@).take(i + 1) =~= byte_seqs(v@).take(i as int).push(v@[i as int]@));
        }
        i = i + 1;
    }
    proof {
        assert(byte_seqs(v@).take(i as int) =~= byte_seqs(v@));
    }
    r
}

/// Two packs agree: the same path, the same read state, and the same keys and
/// values.
pub open spec fn same_pack(a: Pack, b: Pack) -> bool {
    &&& a.path@ == b.path@
    &&& (a.keys is Value <==> b.keys is Value)
    &&& (a.contents is Value <==> b.contents is Value)
    &&& pack_keys(a) == pack_keys(b)
    &&& pack_contents(a) == pack_contents(b)
}

/// A copy of a pack.
pub fn clone_pack(p: &Pack) -> (r: Pack)
    ensures
        same_pack(r, *p),
{
    let keys = match &p.keys {
        PackKeysState::Value(k) => PackKeysState::Value(copy_byte_vecs(k)),
        PackKeysState::Pending => PackKeysState::Pending,
    };
    let contents = match &p.contents {
        PackContentsState::Value(c) => PackContentsState::Value(copy_byte_vecs(c)),
        PackContentsState::Pending => PackContentsState::Pending,
    };
    Pack { path: p.path.clone(), keys, contents }
}

/// Meta and packs are read, and every pack the meta lists has its pack.
pub open spec fn pairs_shape_ok(s: PackScope) -> bool {
    &&& s.meta is Value
    &&& s.packs is Value
    &&& forall|b: int|
        0 <= b < s.meta->Value_0.packs@.len() ==> b < s.packs->Value_0@.len() && (
        #[trigger] s.meta->Value_0.packs@[b])@.len() <= s.packs->Value_0@[b]@.len()
}

/// Each pack of a scope with its position and meta, bucket by bucket.
pub fn get_pack_meta_pairs(scope: &PackScope) -> (r: Vec<(usize, usize, PackFileMeta, Pack)>)
    requires
        pairs_shape_ok(*scope),
    ensures
        r@.len() == positions(scope.meta->Value_0.packs@).len(),
        forall|j: int|
            0 <= j < r@.len() ==> {
                let pos = positions(scope.meta->Value_0.packs@)[j];
                &&& (#[trigger] r@[j]).0 == pos.0
                &&& r@[j].1 == pos.1
                &&& r@[j].2 == scope.meta->Value_0.packs@[pos.0]@[pos.1]
                &&& same_pack(r@[j].3, scope.packs->Value_0@[pos.0]@[pos.1])
            },
{
    let metas = &scope.meta.expect_value().packs;
    let packs = scope.packs.expect_value();
    let ghost mss = metas@;
    let mut out: Vec<(usize, usize, PackFileMeta, Pack)> = Vec::new();
    let mut b: usize = 0;
    while b < metas.len()
        invariant
            pairs_shape_ok(*scope),
            *metas == scope.meta->Value_0.packs,
            *packs == scope.packs->Value_0,
            mss == metas@,
            b <= metas@.len(),
            out@.len() == positions(mss.take(b as int)).len(),
            forall|j: int|
                0 <= j < out@.len() ==> {
                    let pos = positions(mss.take(b as int))[j];
                    &&& (#[trigger] out@[j]).0 == pos.0
                    &&& out@[j].1 == pos.1
                    &&& out@[j].2 == mss[pos.0]@[pos.1]
                    &&& same_pack(out@[j].3, packs@[pos.0]@[pos.1])
                },
        decreases metas@.len() - b,
    {
        let ghost before = positions(mss.take(b as int));
        let ms = &metas[b];
        let ghost all = before + Seq::new(ms@.len(), |k: int| (b as int, k));
        proof {
            assert(mss.take(b + 1).drop_last() =~= mss.take(b as int));
            assert(mss.take(b + 1).last() == mss[b as int]);
            assert(forall|j: int| 0 <= j < before.len() ==> #[trigger] all[j] == before[j]);
            assert(mss[b as int]@.len() <= packs@[b as int]@.len());
        }
        let mut i: usize = 0;
        while i < ms.len()
            invariant
                pairs_shape_ok(*scope),
                *metas == scope.meta->Value_0.packs,
                *packs == scope.packs->Value_0,
                mss == metas@,
                b < metas@.len(),
                *ms == mss[b as int],
                b < packs@.len(),
                ms@.len() <= packs@[b as int]@.len(),
                i <= ms@.len(),
                all == before + Seq::new(ms@.len(), |k: int| (b as int, k)),
                out@.len() == before.len() + i,
                forall|j: int|
                    0 <= j < out@.len() ==> {
                        let pos = all[j];
                        &&& (#[trigger] out@[j]).0 == pos.0
                        &&& out@[j].1 == pos.1
                        &&& out@[j].2 == mss[pos.0]@[pos.1]
                        &&& same_pack(out@[j].3, packs@[pos.0]@[pos.1])
                    },
            decreases ms@.len() - i,
        {
            let m = clone_pack_file_meta(&ms[i]);
            let p = clone_pack(&packs[b][i]);
            let ghost o0 = out@;
            out.push((b, i, m, p));
            proof {
                assert(all[before.len() + i] == (b as int, i as int));
                assert forall|j: int| 0 <= j < out@.len() implies {
                    let pos = all[j];
                    &&& (#[trigger] out@[j]).0 == pos.0
                    &&& out@[j].1 == pos.1
                    &&& out@[j].2 == mss[pos.0]@[pos.1]
                    &&& same_pack(out@[j].3, packs@[pos.0]@[pos.1])
                } by {
                    if j < o0.len() {
                        assert(out@[j] == o0[j]);
                    }
                }
            }
            i = i + 1;
        }
        proof {
            assert(positions(mss.take(b + 1)) =~= all);
        }
        b = b + 1;
    }
    proof {
        assert(mss.take(b as int) =~= mss);
    }
    out
}

/// The packs a meta lists, none read yet: in each bucket, for each meta, the
/// pack named by it in the bucket's directory.
pub fn read_packs(scope: &PackScope) -> (r: ScopePacks)
    requires
        scope.meta is Value,
    ensures
        r@.len() == scope.meta->Value_0.packs@.len(),
        forall|b: int|
            0 <= b < r@.len() ==> (#[trigger] r@[b])@.len() == scope.meta->Value_0.packs@[b]@.len(),
        forall|b: int, i: int|
            0 <= b < r@.len() && 0 <= i < r@[b]@.len() ==> {
                &&& (#[trigger] r@[b]@[i]).path@ == listed_path(*scope, (b, i))
                &&& r@[b]@[i].keys is Pending
                &&& r@[b]@[i].contents is Pending
            },
{
    let metas = &scope.meta.expect_value().packs;
    let mut out: Vec<Vec<Pack>> = Vec::new();
    let mut b: usize = 0;
    while b < metas.len()
        invariant
            scope.meta is Value,
            *metas == scope.meta->Value_0.packs,
            b <= metas@.len(),
            out@.len() == b,
            forall|b2: int| 0 <= b2 < b ==> (#[trigger] out@[b2])@.len() == metas@[b2]@.len(),
            forall|b2: int, i: int|
                0 <= b2 < b && 0 <= i < out@[b2]@.len() ==> {
                    &&& (#[trigger] out@[b2]@[i]).path@ == listed_path(*scope, (b2, i))
                    &&& out@[b2]@[i].keys is Pending
                    &&& out@[b2]@[i].contents is Pending
                },
        decreases metas@.len() - b,
    {
        let dir = join_path(&scope.path, &usize_to_string(b));
        let ms = &metas[b];
        let mut bucket: Vec<Pack> = Vec::new();
        let mut i: usize = 0;
        while i < ms.len()
            invariant
                scope.meta is Value,
                *metas == scope.meta->Value_0.packs,
                b < metas@.len(),
                *ms == metas@[b as int],
                dir@ == spec_join(scope.path@, ascii_chars(spec_decimal(b as nat))),
                i <= ms@.len(),
                bucket@.len() == i,
                forall|k: int|
                    0 <= k < i ==> {
                        &&& (#[trigger] bucket@[k]).path@ == listed_path(*scope, (b as int, k))
                        &&& bucket@[k].keys is Pending
                        &&& bucket@[k].contents is Pending
                    },
            decreases ms@.len() - i,
        {
            bucket.push(Pack::new(join_path(&dir, &ms[i].name)));
            i = i + 1;
        }
        out.push(bucket);
        b = b + 1;
    }
    out
}

/// The meta of a scope read from its meta file `file` (the bytes of
/// `cache_meta` in the scope's directory, written with the layout of
/// `rule`), or, when there is none, the meta of an empty scope written at
/// `now`.
pub fn read_meta_at(scope: &PackScope, rule: SizeRule, file: Option<Vec<u8>>, now: u64) -> (r:
    Result<ScopeMeta, StorageError>)
    ensures
        file is None ==> (r matches Ok(m) && m.path@ == spec_join(scope.path@, meta_file_name())
            && m.buckets == scope.options.buckets && m.max_pack_size == scope.options.max_pack_size
            && m.last_modified == now && m.packs@.len() == scope.options.buckets && forall|b: int|
            0 <= b < m.packs@.len() ==> (#[trigger] m.packs@[b])@.len() == 0),
        file matches Some(d) ==> match spec_read_scope_meta(rule, d@) {
            Ok((b, mx, lm, entries)) => r matches Ok(m) && m.path@ == spec_join(
                scope.path@,
                meta_file_name(),
            ) && m.buckets == b && m.max_pack_size == mx && m.last_modified == lm && meta_records(
                m.packs@,
            ) == entries && forall|i: int, j: int|
                0 <= i < m.packs@.len() && 0 <= j < m.packs@[i]@.len() ==> (#[trigger] m.packs@[i]@[j]).writed,
            Err(MetaFault::NotUtf8) => r matches Err(StorageError::Fs(e)) && e.file@ == spec_join(
                scope.path@,
                meta_file_name(),
            ) && e.opt == PackFsErrorOpt::Read && e.inner@ == invalid_utf8_message(),
            Err(MetaFault::BadNumber(f)) => r matches Err(StorageError::MetaParse(g)) && g == f,
            Err(MetaFault::TooFewOptions) => r matches Err(StorageError::MetaBroken),
            Err(MetaFault::BadPackInfo) => r matches Err(StorageError::PackInfo),
        },
{
    let path = ScopeMeta::get_path(&scope.path);
    match read_scope_meta(rule, &path, file)? {
        Some(m) => Ok(m),
        None => Ok(ScopeMeta::new_at(&scope.path, &scope.options, now)),
    }
}

/// The meta of a scope read from its meta file `file`, or, when there is
/// none, the meta of an empty scope written now; the clock error when the
/// system clock stands before the Unix epoch.
pub fn read_meta(scope: &PackScope, rule: SizeRule, file: Option<Vec<u8>>) -> (r: Result<
    ScopeMeta,
    StorageError,
>)
    ensures
        file is None ==> (r is Err ==> r matches Err(StorageError::Clock)),
        file is None ==> (r matches Ok(m) ==> m.path@ == spec_join(scope.path@, meta_file_name())
            && m.buckets == scope.options.buckets && m.max_pack_size == scope.options.max_pack_size
            && m.packs@.len() == scope.options.buckets && forall|b: int|
            0 <= b < m.packs@.len() ==> (#[trigger] m.packs@[b])@.len() == 0),
        file matches Some(d) ==> match spec_read_scope_meta(rule, d@) {
            Ok((b, mx, lm, entries)) => r matches Ok(m) && m.path@ == spec_join(
                scope.path@,
                meta_file_name(),
            ) && m.buckets == b && m.max_pack_size == mx && m.last_modified == lm && meta_records(
                m.packs@,
            ) == entries && forall|i: int, j: int|
                0 <= i < m.packs@.len() && 0 <= j < m.packs@[i]@.len() ==> (#[trigger] m.packs@[i]@[j]).writed,
            Err(MetaFault::NotUtf8) => r matches Err(StorageError::Fs(e)) && e.file@ == spec_join(
                scope.path@,
                meta_file_name(),
            ) && e.opt == PackFsErrorOpt::Read && e.inner@ == invalid_utf8_message(),
            Err(MetaFault::BadNumber(f)) => r matches Err(StorageError::MetaParse(g)) && g == f,
            Err(MetaFault::TooFewOptions) => r matches Err(StorageError::MetaBroken),
            Err(MetaFault::BadPackInfo) => r matches Err(StorageError::PackInfo),
        },
{
    match file {
        Some(d) => read_meta_at(scope, rule, Some(d), 0),
        None => match current_secs() {
            Some(now) => read_meta_at(scope, rule, None, now),
            None => Err(StorageError::Clock),
        },
    }
}

/// Whether the pack at a position of a scope has its keys unread.
pub open spec fn keys_unread(scope: PackScope) -> spec_fn((int, int)) -> bool {
    |p: (int, int)| scope.packs->Value_0@[p.0]@[p.1].keys is Pending
}

/// Whether the pack at a position of a scope has its values unread.
pub open spec fn contents_unread(scope: PackScope) -> spec_fn((int, int)) -> bool {
    |p: (int, int)| scope.packs->Value_0@[p.0]@[p.1].contents is Pending
}

/// The positions, bucket by bucket, of the packs of a scope that `pred`
/// picks.
pub open spec fn picked(scope: PackScope, pred: spec_fn((int, int)) -> bool) -> Seq<(int, int)> {
    positions(scope.meta->Value_0.packs@).filter(pred)
}

/// The listing `r` names exactly the picked positions, in order, each with
/// the path of its pack.
pub open spec fn lists_picked(
    scope: PackScope,
    pred: spec_fn((int, int)) -> bool,
    r: Seq<(usize, usize, String)>,
) -> bool {
    &&& r.len() == picked(scope, pred).len()
    &&& forall|j: int|
        0 <= j < r.len() ==> {
            let pos = picked(scope, pred)[j];
            &&& (#[trigger] r[j]).0 == pos.0
            &&& r[j].1 == pos.1
            &&& 0 <= pos.0 < scope.packs->Value_0@.len()
            &&& 0 <= pos.1 < scope.packs->Value_0@[pos.0]@.len()
            &&& pred(pos)
            &&& r[j].2@ == scope.packs->Value_0@[pos.0]@[pos.1].path@
        }
}

proof fn lemma_filter_step<A>(s: Seq<A>, pred: spec_fn(A) -> bool, j: int)
    requires
        0 <= j < s.len(),
    ensures
        s.take(j + 1).filter(pred) == if pred(s[j]) {
            s.take(j).filter(pred).push(s[j])
        } else {
            s.take(j).filter(pred)
        },
{
    reveal(Seq::filter);
    assert(s.take(j + 1).drop_last() =~= s.take(j));
}

proof fn lemma_filter_picked<A>(s: Seq<A>, pred: spec_fn(A) -> bool, n: int, k: int)
    requires
        0 <= n <= s.len(),
        0 <= k < s.take(n).filter(pred).len(),
    ensures
        pred(s.take(n).filter(pred)[k]),
        exists|i: int| 0 <= i < n && s[i] == #[trigger] s.take(n).filter(pred)[k],
{
    s.take(n).lemma_filter_pred(pred, k);
    #[allow(deprecated)]
    s.take(n).filter_lemma(pred);
    lemma_filter_in(s.take(n), pred, k);
}

proof fn lemma_filter_in<A>(s: Seq<A>, pred: spec_fn(A) -> bool, k: int)
    requires
        0 <= k < s.filter(pred).len(),
    ensures
        exists|i: int| 0 <= i < s.len() && s[i] == #[trigger] s.filter(pred)[k],
    decreases s.len(),
{
    reveal(Seq::filter);
    let sub = s.drop_last().filter(pred);
    if k < sub.len() {
        lemma_filter_in(s.drop_last(), pred, k);
        let i = choose|i: int| 0 <= i < s.drop_last().len() && s.drop_last()[i] == sub[k];
        assert(s[i] == s.filter(pred)[k]);
    } else {
        assert(s[s.len() - 1] == s.filter(pred)[k]);
    }
}

/// Lists the picked packs of a scope with their paths.
fn list_picked(scope: &PackScope, want_keys: bool) -> (r: Vec<(usize, usize, String)>)
    requires
        scope_shape_ok(*scope),
    ensures
        lists_picked(*scope, if want_keys { keys_unread(*scope) } else { contents_unread(*scope) }, r@),
{
    let ghost pred = if want_keys { keys_unread(*scope) } else { contents_unread(*scope) };
    let ghost ps = positions(scope.meta->Value_0.packs@);
    let pairs = get_pack_meta_pairs(scope);
    let mut out: Vec<(usize, usize, String)> = Vec::new();
    let mut j: usize = 0;
    proof {
        crate::validate::lemma_positions(scope.meta->Value_0.packs@);
        assert(ps.take(0) =~= Seq::<(int, int)>::empty());
        reveal(Seq::filter);
    }
    while j < pairs.len()
        invariant
            scope_shape_ok(*scope),
            pred == (if want_keys { keys_unread(*scope) } else { contents_unread(*scope) }),
            ps == positions(scope.meta->Value_0.packs@),
            j <= pairs@.len(),
            pairs@.len() == ps.len(),
            forall|k: int|
                0 <= k < ps.len() ==> 0 <= (#[trigger] ps[k]).0 < scope.packs->Value_0@.len() && 0
                    <= ps[k].1 < scope.packs->Value_0@[ps[k].0]@.len(),
            forall|k: int|
                0 <= k < pairs@.len() ==> {
                    let pos = ps[k];
                    &&& (#[trigger] pairs@[k]).0 == pos.0
                    &&& pairs@[k].1 == pos.1
                    &&& same_pack(pairs@[k].3, scope.packs->Value_0@[pos.0]@[pos.1])
                },
            out@.len() == ps.take(j as int).filter(pred).len(),
            forall|k: int|
                0 <= k < out@.len() ==> {
                    let pos = ps.take(j as int).filter(pred)[k];
                    &&& (#[trigger] out@[k]).0 == pos.0
                    &&& out@[k].1 == pos.1
                    &&& out@[k].2@ == scope.packs->Value_0@[pos.0]@[pos.1].path@
                },
        decreases pairs@.len() - j,
    {
        let e = &pairs[j];
        let pick = if want_keys {
            matches!(e.3.keys, PackKeysState::Pending)
        } else {
            matches!(e.3.contents, PackContentsState::Pending)
        };
        proof {
            lemma_filter_step(ps, pred, j as int);
            assert(pick == pred(ps[j as int]));
        }
        if pick {
            out.push((e.0, e.1, e.3.path.clone()));
        }
        j = j + 1;
    }
    proof {
        assert(ps.take(j as int) =~= ps);
        assert forall|k: int| 0 <= k < out@.len() implies {
            let pos = #[trigger] picked(*scope, pred)[k];
            &&& 0 <= pos.0 < scope.packs->Value_0@.len()
            &&& 0 <= pos.1 < scope.packs->Value_0@[pos.0]@.len()
            &&& pred(pos)
        } by {
            lemma_filter_picked(ps, pred, ps.len() as int, k);
        }
    }
    out
}

/// The packs of a scope whose keys are not read yet, with their paths,
/// bucket by bucket.
pub fn keys_to_read(scope: &PackScope) -> (r: Vec<(usize, usize, String)>)
    requires
        scope_shape_ok(*scope),
    ensures
        lists_picked(*scope, keys_unread(*scope), r@),
{
    list_picked(scope, true)
}

/// The packs of a scope whose values are not read yet, with their paths,
/// bucket by bucket.
pub fn contents_to_read(scope: &PackScope) -> (r: Vec<(usize, usize, String)>)
    requires
        scope_shape_ok(*scope),
    ensures
        lists_picked(*scope, contents_unread(*scope), r@),
{
    list_picked(scope, false)
}

/// The position of the last entry of `ps` equal to `pos`, or -1.
pub open spec fn last_at(ps: Seq<(int, int)>, pos: (int, int)) -> int
    decreases ps.len(),
{
    if ps.len() == 0 {
        -1
    } else if ps.last() == pos {
        ps.len() - 1
    } else {
        last_at(ps.drop_last(), pos)
    }
}

proof fn lemma_last_at_step(ps: Seq<(int, int)>, n: int, pos: (int, int))
    requires
        0 <= n < ps.len(),
    ensures
        last_at(ps.take(n + 1), pos) == if ps[n] == pos { n } else { last_at(ps.take(n), pos) },
        -1 <= last_at(ps.take(n), pos) < n,
{
    assert(ps.take(n + 1).drop_last() =~= ps.take(n));
    lemma_last_at_range(ps.take(n), pos);
}

proof fn lemma_last_at_range(ps: Seq<(int, int)>, pos: (int, int))
    ensures
        -1 <= last_at(ps, pos) < ps.len(),
        last_at(ps, pos) >= 0 ==> ps[last_at(ps, pos)] == pos,
    decreases ps.len(),
{
    if ps.len() > 0 && ps.last() != pos {
        lemma_last_at_range(ps.drop_last(), pos);
    }
}

/// The positions of read keys, in order.
pub open spec fn keys_positions(rs: Seq<ReadKeysResult>) -> Seq<(int, int)> {
    rs.map_values(|r: ReadKeysResult| (r.bucket_id as int, r.pack_pos as int))
}

/// The positions of read values, in order.
pub open spec fn contents_positions(rs: Seq<ReadContentsResult>) -> Seq<(int, int)> {
    rs.map_values(|r: ReadContentsResult| (r.bucket_id as int, r.pack_pos as int))
}

/// Every result names a pack of `packs`.
pub open spec fn positions_in(ps: Seq<(int, int)>, packs: Seq<Vec<Pack>>) -> bool {
    forall|j: int|
        0 <= j < ps.len() ==> 0 <= (#[trigger] ps[j]).0 < packs.len() && 0 <= ps[j].1 < packs[ps[j].0]@.len()
}

/// `after` is `before` with the read keys set: each pack named by a result
/// takes the keys of the last result that names it; everything else stays.
pub open spec fn keys_set(before: Seq<Vec<Pack>>, rs: Seq<ReadKeysResult>, after: Seq<Vec<Pack>>) -> bool {
    &&& after.len() == before.len()
    &&& forall|b: int| 0 <= b < before.len() ==> (#[trigger] after[b])@.len() == before[b]@.len()
    &&& forall|b: int, i: int|
        0 <= b < before.len() && 0 <= i < before[b]@.len() ==> {
            let p0 = before[b]@[i];
            let p1 = #[trigger] after[b]@[i];
            let j = last_at(keys_positions(rs), (b, i));
            &&& p1.path == p0.path
            &&& p1.contents == p0.contents
            &&& p1.keys == if j < 0 { p0.keys } else { PackKeysState::Value(rs[j].keys) }
        }
}

/// `after` is `before` with the read values set: each pack named by a result
/// takes the values of the last result that names it; everything else stays.
pub open spec fn contents_set(
    before: Seq<Vec<Pack>>,
    rs: Seq<ReadContentsResult>,
    after: Seq<Vec<Pack>>,
) -> bool {
    &&& after.len() == before.len()
    &&& forall|b: int| 0 <= b < before.len() ==> (#[trigger] after[b])@.len() == before[b]@.len()
    &&& forall|b: int, i: int|
        0 <= b < before.len() && 0 <= i < before[b]@.len() ==> {
            let p0 = before[b]@[i];
            let p1 = #[trigger] after[b]@[i];
            let j = last_at(contents_positions(rs), (b, i));
            &&& p1.path == p0.path
            &&& p1.keys == p0.keys
            &&& p1.contents == if j < 0 { p0.contents } else { PackContentsState::Value(rs[j].contents) }
        }
}

/// Records in a scope the keys read for its packs.
pub fn set_read_keys(scope: &mut PackScope, results: Vec<ReadKeysResult>)
    requires
        old(scope).packs is Value,
        positions_in(keys_positions(results@), old(scope).packs->Value_0@),
    ensures
        final(scope).path == old(scope).path,
        final(scope).options == old(scope).options,
        final(scope).meta == old(scope).meta,
        final(scope).removed == old(scope).removed,
        final(scope).packs is Value,
        keys_set(old(scope).packs->Value_0@, results@, final(scope).packs->Value_0@),
{
    let ghost rs = results@;
    let ghost ps = keys_positions(rs);
    let ghost before = scope.packs->Value_0@;
    let mut packs = match scope.packs.take_value() {
        Some(p) => p,
        None => Vec::new(),
    };
    let total = results.len();
    let mut rest = crate::scope_update::reverse_vec(results);
    let mut n: usize = 0;
    proof {
        assert(rest@.reverse() =~= rs.skip(0));
        assert forall|b: int, i: int| 0 <= b < before.len() && 0 <= i < before[b]@.len() implies last_at(
            ps.take(0),
            (b, i),
        ) == -1 by {
            assert(ps.take(0).len() == 0);
        }
    }
    while rest.len() > 0
        invariant
            ps == keys_positions(rs),
            positions_in(ps, before),
            rs.len() == total,
            n <= rs.len(),
            rest@.reverse() == rs.skip(n as int),
            packs@.len() == before.len(),
            forall|b: int| 0 <= b < before.len() ==> (#[trigger] packs@[b])@.len() == before[b]@.len(),
            forall|b: int, i: int|
                0 <= b < before.len() && 0 <= i < before[b]@.len() ==> {
                    let p0 = before[b]@[i];
                    let p1 = #[trigger] packs@[b]@[i];
                    let j = last_at(ps.take(n as int), (b, i));
                    &&& p1.path == p0.path
                    &&& p1.contents == p0.contents
                    &&& p1.keys == if j < 0 { p0.keys } else { PackKeysState::Value(rs[j].keys) }
                },
        decreases rest@.len(),
    {
        let ghost r0 = rest@;
        proof {
            assert(rs.skip(n as int).len() == r0.len());
            assert(r0.reverse()[0] == r0.last());
            assert(rs.skip(n as int)[0] == rs[n as int]);
        }
        let r = rest.pop().unwrap();
        proof {
            assert(r == rs[n as int]);
            assert(rest@ == r0.drop_last());
            assert(rest@.reverse() =~= rs.skip(n as int).skip(1));
            assert(rs.skip(n as int).skip(1) =~= rs.skip(n + 1));
            assert(ps[n as int] == (r.bucket_id as int, r.pack_pos as int));
        }
        let b = r.bucket_id;
        let i = r.pack_pos;
        packs[b][i].keys = PackKeysState::Value(r.keys);
        proof {
            assert forall|b2: int, i2: int| 0 <= b2 < before.len() && 0 <= i2 < before[b2]@.len() implies last_at(
                ps.take(n + 1),
                (b2, i2),
            ) == if (b2, i2) == (b as int, i as int) { n as int } else { last_at(ps.take(n as int), (b2, i2)) } by {
                lemma_last_at_step(ps, n as int, (b2, i2));
            }
        }
        n = n + 1;
    }
    proof {
        assert(ps.take(n as int) =~= ps);
    }
    scope.packs = ScopePacksState::Value(packs);
}

/// Records in a scope the values read for its packs.
pub fn set_read_contents(scope: &mut PackScope, results: Vec<ReadContentsResult>)
    requires
        old(scope).packs is Value,
        positions_in(contents_positions(results@), old(scope).packs->Value_0@),
    ensures
        final(scope).path == old(scope).path,
        final(scope).options == old(scope).options,
        final(scope).meta == old(scope).meta,
        final(scope).removed == old(scope).removed,
        final(scope).packs is Value,
        contents_set(old(scope).packs->Value_0@, results@, final(scope).packs->Value_0@),
{
    let ghost rs = results@;
    let ghost ps = contents_positions(rs);
    let ghost before = scope.packs->Value_0@;
    let mut packs = match scope.packs.take_value() {
        Some(p) => p,
        None => Vec::new(),
    };
    let total = results.len();
    let mut rest = crate::scope_update::reverse_vec(results);
    let mut n: usize = 0;
    proof {
        assert(rest@.reverse() =~= rs.skip(0));
        assert forall|b: int, i: int| 0 <= b < before.len() && 0 <= i < before[b]@.len() implies last_at(
            ps.take(0),
            (b, i),
        ) == -1 by {
            assert(ps.take(0).len() == 0);
        }
    }
    while rest.len() > 0
        invariant
            ps == contents_positions(rs),
            positions_in(ps, before),
            rs.len() == total,
            n <= rs.len(),
            rest@.reverse() == rs.skip(n as int),
            packs@.len() == before.len(),
            forall|b: int| 0 <= b < before.len() ==> (#[trigger] packs@[b])@.len() == before[b]@.len(),
            forall|b: int, i: int|
                0 <= b < before.len() && 0 <= i < before[b]@.len() ==> {
                    let p0 = before[b]@[i];
                    let p1 = #[trigger] packs@[b]@[i];
                    let j = last_at(ps.take(n as int), (b, i));
                    &&& p1.path == p0.path
                    &&& p1.keys == p0.keys
                    &&& p1.contents == if j < 0 { p0.contents } else { PackContentsState::Value(rs[j].contents) }
                },
        decreases rest@.len(),
    {
        let ghost r0 = rest@;
        proof {
            assert(rs.skip(n as int).len() == r0.len());
            assert(r0.reverse()[0] == r0.last());
            assert(rs.skip(n as int)[0] == rs[n as int]);
        }
        let r = rest.pop().unwrap();
        proof {
            assert(r == rs[n as int]);
            assert(rest@ == r0.drop_last());
            assert(rest@.reverse() =~= rs.skip(n as int).skip(1));
            assert(rs.skip(n as int).skip(1) =~= rs.skip(n + 1));
            assert(ps[n as int] == (r.bucket_id as int, r.pack_pos as int));
        }
        let b = r.bucket_id;
        let i = r.pack_pos;
        packs[b][i].contents = PackContentsState::Value(r.contents);
        proof {
            assert forall|b2: int, i2: int| 0 <= b2 < before.len() && 0 <= i2 < before[b2]@.len() implies last_at(
                ps.take(n + 1),
                (b2, i2),
            ) == if (b2, i2) == (b as int, i as int) { n as int } else { last_at(ps.take(n as int), (b2, i2)) } by {
                lemma_last_at_step(ps, n as int, (b2, i2));
            }
        }
        n = n + 1;
    }
    proof {
        assert(ps.take(n as int) =~= ps);
    }
    scope.packs = ScopePacksState::Value(packs);
}

/// The keys of a pack file read, when there is a file.
pub open spec fn keys_read_ok(f: Option<Vec<u8>>) -> bool {
    f matches Some(d) ==> spec_read_pack_keys(d@) is Ok
}

/// The values of a pack file read, when there is a file.
pub open spec fn contents_read_ok(f: Option<Vec<u8>>) -> bool {
    f matches Some(d) ==> spec_read_pack_contents(d@) is Ok
}

/// Reads the keys of the listed packs from their files `files`, in order: a
/// missing file reads as no keys; the first read error stops.
pub fn read_keys(candidates: &Vec<(usize, usize, String)>, files: Vec<Option<Vec<u8>>>) -> (r: Result<
    Vec<ReadKeysResult>,
    StorageError,
>)
    requires
        files@.len() == candidates@.len(),
        forall|j: int| 0 <= j < files@.len() ==> (#[trigger] files@[j] matches Some(d) ==> keys_header_ok(d@)),
    ensures
        r matches Ok(v) ==> v@.len() == candidates@.len() && forall|j: int|
            0 <= j < v@.len() ==> {
                &&& (#[trigger] v@[j]).bucket_id == candidates@[j].0
                &&& v@[j].pack_pos == candidates@[j].1
                &&& byte_seqs(v@[j].keys@) == match files@[j] {
                    None => Seq::empty(),
                    Some(d) => spec_read_pack_keys(d@)->Ok_0,
                }
                &&& files@[j] matches Some(d) ==> spec_read_pack_keys(d@) is Ok
            },
        r is Ok <==> forall|j: int| 0 <= j < files@.len() ==> keys_read_ok(#[trigger] files@[j]),
        r matches Err(e) ==> exists|j: int|
            0 <= j < files@.len() && !keys_read_ok(#[trigger] files@[j]) && (forall|k: int|
                0 <= k < j ==> keys_read_ok(files@[k])) && (e matches StorageError::Fs(fe)
                && fe.file@ == candidates@[j].2@ && fe.opt == PackFsErrorOpt::Read && fe.inner@
                == spec_read_pack_keys(files@[j]->Some_0@)->Err_0),
{
    let ghost fs = files@;
    let mut rest = crate::scope_update::reverse_vec(files);
    let mut out: Vec<ReadKeysResult> = Vec::new();
    let mut j: usize = 0;
    while j < candidates.len()
        invariant
            fs == files@,
            fs.len() == candidates@.len(),
            forall|k: int| 0 <= k < fs.len() ==> (#[trigger] fs[k] matches Some(d) ==> keys_header_ok(d@)),
            j <= candidates@.len(),
            rest@ == fs.skip(j as int).reverse(),
            out@.len() == j,
            forall|k: int|
                0 <= k < j ==> {
                    &&& (#[trigger] out@[k]).bucket_id == candidates@[k].0
                    &&& out@[k].pack_pos == candidates@[k].1
                    &&& byte_seqs(out@[k].keys@) == match fs[k] {
                        None => Seq::empty(),
                        Some(d) => spec_read_pack_keys(d@)->Ok_0,
                    }
                    &&& fs[k] matches Some(d) ==> spec_read_pack_keys(d@) is Ok
                },
        decreases candidates@.len() - j,
    {
        let ghost r0 = rest@;
        let file = rest.pop().unwrap();
        proof {
            assert(r0 == fs.skip(j as int).reverse());
            assert(file == fs[j as int]);
            assert(rest@ =~= fs.skip(j + 1).reverse());
        }
        let keys = match read_pack_keys(&candidates[j].2, file) {
            Ok(Some(k)) => k,
            Ok(None) => Vec::new(),
            Err(e) => {
                proof {
                    assert(!keys_read_ok(fs[j as int]));
                    assert forall|k: int| 0 <= k < j implies keys_read_ok(fs[k]) by {
                        assert(out@[k].bucket_id == candidates@[k].0);
                    }
                }
                return Err(e);
            },
        };
        proof {
            if fs[j as int] is None {
                assert(byte_seqs(keys@) =~= Seq::<Seq<u8>>::empty());
            }
        }
        out.push(ReadKeysResult { bucket_id: candidates[j].0, pack_pos: candidates[j].1, keys });
        j = j + 1;
    }
    proof {
        assert forall|k: int| 0 <= k < fs.len() implies keys_read_ok(#[trigger] fs[k]) by {
            assert(out@[k].bucket_id == candidates@[k].0);
        }
    }
    Ok(out)
}

/// Reads the values of the listed packs from their files `files`, in order:
/// a missing file reads as no values; the first read error stops.
pub fn read_contents(candidates: &Vec<(usize, usize, String)>, files: Vec<Option<Vec<u8>>>) -> (r:
    Result<Vec<ReadContentsResult>, StorageError>)
    requires
        files@.len() == candidates@.len(),
        forall|j: int| 0 <= j < files@.len() ==> (#[trigger] files@[j] matches Some(d) ==> contents_header_ok(d@)),
    ensures
        r matches Ok(v) ==> v@.len() == candidates@.len() && forall|j: int|
            0 <= j < v@.len() ==> {
                &&& (#[trigger] v@[j]).bucket_id == candidates@[j].0
                &&& v@[j].pack_pos == candidates@[j].1
                &&& byte_seqs(v@[j].contents@) == match files@[j] {
                    None => Seq::empty(),
                    Some(d) => spec_read_pack_contents(d@)->Ok_0,
                }
                &&& files@[j] matches Some(d) ==> spec_read_pack_contents(d@) is Ok
            },
        r is Ok <==> forall|j: int| 0 <= j < files@.len() ==> contents_read_ok(#[trigger] files@[j]),
        r matches Err(e) ==> exists|j: int|
            0 <= j < files@.len() && !contents_read_ok(#[trigger] files@[j]) && (forall|k: int|
                0 <= k < j ==> contents_read_ok(files@[k])) && (e matches StorageError::Fs(fe)
                && fe.file@ == candidates@[j].2@ && fe.opt == PackFsErrorOpt::Read && fe.inner@
                == spec_read_pack_contents(files@[j]->Some_0@)->Err_0),
{
    let ghost fs = files@;
    let mut rest = crate::scope_update::reverse_vec(files);
    let mut out: Vec<ReadContentsResult> = Vec::new();
    let mut j: usize = 0;
    while j < candidates.len()
        invariant
            fs == files@,
            fs.len() == candidates@.len(),
            forall|k: int| 0 <= k < fs.len() ==> (#[trigger] fs[k] matches Some(d) ==> contents_header_ok(d@)),
            j <= candidates@.len(),
            rest@ == fs.skip(j as int).reverse(),
            out@.len() == j,
            forall|k: int|
                0 <= k < j ==> {
                    &&& (#[trigger] out@[k]).bucket_id == candidates@[k].0
                    &&& out@[k].pack_pos == candidates@[k].1
                    &&& byte_seqs(out@[k].contents@) == match fs[k] {
                        None => Seq::empty(),
                        Some(d) => spec_read_pack_contents(d@)->Ok_0,
                    }
                    &&& fs[k] matches Some(d) ==> spec_read_pack_contents(d@) is Ok
                },
        decreases candidates@.len() - j,
    {
        let ghost r0 = rest@;
        let file = rest.pop().unwrap();
        proof {
            assert(r0 == fs.skip(j as int).reverse());
            assert(file == fs[j as int]);
            assert(rest@ =~= fs.skip(j + 1).reverse());
        }
        let contents = match read_pack_contents(&candidates[j].2, file) {
            Ok(Some(c)) => c,
            Ok(None) => Vec::new(),
            Err(e) => {
                proof {
                    assert(!contents_read_ok(fs[j as int]));
                    assert forall|k: int| 0 <= k < j implies contents_read_ok(fs[k]) by {
                        assert(out@[k].bucket_id == candidates@[k].0);
                    }
                }
                return Err(e);
            },
        };
        proof {
            if fs[j as int] is None {
                assert(byte_seqs(contents@) =~= Seq::<Seq<u8>>::empty());
            }
        }
        out.push(
            ReadContentsResult { bucket_id: candidates[j].0, pack_pos: candidates[j].1, contents },
        );
        j = j + 1;
    }
    proof {
        assert forall|k: int| 0 <= k < fs.len() implies contents_read_ok(#[trigger] fs[k]) by {
            assert(out@[k].bucket_id == candidates@[k].0);
        }
    }
    Ok(out)
}

/// The positions the listed candidates name, in order.
pub open spec fn candidate_positions(c: Seq<(usize, usize, String)>) -> Seq<(int, int)> {
    c.map_values(|e: (usize, usize, String)| (e.0 as int, e.1 as int))
}

/// The keys a pack file gives: none when there is no file.
pub open spec fn file_keys(f: Option<Vec<u8>>) -> Seq<Seq<u8>> {
    match f {
        None => Seq::empty(),
        Some(d) => spec_read_pack_keys(d@)->Ok_0,
    }
}

/// The values a pack file gives: none when there is no file.
pub open spec fn file_contents(f: Option<Vec<u8>>) -> Seq<Seq<u8>> {
    match f {
        None => Seq::empty(),
        Some(d) => spec_read_pack_contents(d@)->Ok_0,
    }
}

/// Reads the keys of the listed packs of a scope from their files `files`
/// and records them in the scope: each listed pack takes the keys of its
/// file, a missing file giving none. The first read error stops, and then
/// the scope stays as it was.
pub fn read_keys_into(
    scope: &mut PackScope,
    candidates: &Vec<(usize, usize, String)>,
    files: Vec<Option<Vec<u8>>>,
) -> (r: Result<(), StorageError>)
    requires
        scope_shape_ok(*old(scope)),
        lists_picked(*old(scope), keys_unread(*old(scope)), candidates@),
        files@.len() == candidates@.len(),
        forall|j: int| 0 <= j < files@.len() ==> (#[trigger] files@[j] matches Some(d) ==> keys_header_ok(d@)),
    ensures
        r is Ok <==> forall|j: int| 0 <= j < files@.len() ==> keys_read_ok(#[trigger] files@[j]),
        r matches Err(e) ==> *final(scope) == *old(scope) && exists|j: int|
            0 <= j < files@.len() && !keys_read_ok(#[trigger] files@[j]) && (forall|k: int|
                0 <= k < j ==> keys_read_ok(files@[k])) && (e matches StorageError::Fs(fe)
                && fe.file@ == candidates@[j].2@ && fe.opt == PackFsErrorOpt::Read && fe.inner@
                == spec_read_pack_keys(files@[j]->Some_0@)->Err_0),
        r is Ok ==> {
            &&& final(scope).path == old(scope).path
            &&& final(scope).options == old(scope).options
            &&& final(scope).meta == old(scope).meta
            &&& final(scope).removed == old(scope).removed
            &&& final(scope).packs is Value
            &&& final(scope).packs->Value_0@.len() == old(scope).packs->Value_0@.len()
            &&& forall|b: int|
                0 <= b < old(scope).packs->Value_0@.len() ==> (#[trigger] final(scope).packs->Value_0@[b])@.len()
                    == old(scope).packs->Value_0@[b]@.len()
            &&& forall|b: int, i: int|
                0 <= b < old(scope).packs->Value_0@.len() && 0 <= i < old(scope).packs->Value_0@[b]@.len() ==> {
                    let p0 = old(scope).packs->Value_0@[b]@[i];
                    let p1 = #[trigger] final(scope).packs->Value_0@[b]@[i];
                    let j = last_at(candidate_positions(candidates@), (b, i));
                    &&& p1.path == p0.path
                    &&& p1.contents == p0.contents
                    &&& j < 0 ==> p1.keys == p0.keys
                    &&& j >= 0 ==> p1.keys is Value && byte_seqs(p1.keys->Value_0@) == file_keys(files@[j])
                }
        },
{
    let ghost fs = files@;
    let results = read_keys(candidates, files)?;
    proof {
        assert(keys_positions(results@) =~= candidate_positions(candidates@));
        assert forall|j: int| 0 <= j < keys_positions(results@).len() implies 0 <= (#[trigger] keys_positions(
            results@,
        )[j]).0 < old(scope).packs->Value_0@.len() && 0 <= keys_positions(results@)[j].1 < old(
            scope,
        ).packs->Value_0@[keys_positions(results@)[j].0]@.len() by {
            assert(candidates@[j].0 == picked(*old(scope), keys_unread(*old(scope)))[j].0);
        }
    }
    let ghost rs = results@;
    set_read_keys(scope, results);
    proof {
        assert forall|b: int, i: int|
            #![trigger old(scope).packs->Value_0@[b]@[i]]
            0 <= b < old(scope).packs->Value_0@.len() && 0 <= i < old(scope).packs->Value_0@[b]@.len() implies {
                let j = last_at(candidate_positions(candidates@), (b, i));
                j >= 0 ==> byte_seqs(rs[j].keys@) == file_keys(fs[j])
            } by {
            lemma_last_at_range(candidate_positions(candidates@), (b, i));
        }
    }
    Ok(())
}

/// Reads the values of the listed packs of a scope from their files `files`
/// and records them in the scope: each listed pack takes the values of its
/// file, a missing file giving none. The first read error stops, and then
/// the scope stays as it was.
pub fn read_contents_into(
    scope: &mut PackScope,
    candidates: &Vec<(usize, usize, String)>,
    files: Vec<Option<Vec<u8>>>,
) -> (r: Result<(), StorageError>)
    requires
        scope_shape_ok(*old(scope)),
        lists_picked(*old(scope), contents_unread(*old(scope)), candidates@),
        files@.len() == candidates@.len(),
        forall|j: int| 0 <= j < files@.len() ==> (#[trigger] files@[j] matches Some(d) ==> contents_header_ok(d@)),
    ensures
        r is Ok <==> forall|j: int| 0 <= j < files@.len() ==> contents_read_ok(#[trigger] files@[j]),
        r matches Err(e) ==> *final(scope) == *old(scope) && exists|j: int|
            0 <= j < files@.len() && !contents_read_ok(#[trigger] files@[j]) && (forall|k: int|
                0 <= k < j ==> contents_read_ok(files@[k])) && (e matches StorageError::Fs(fe)
                && fe.file@ == candidates@[j].2@ && fe.opt == PackFsErrorOpt::Read && fe.inner@
                == spec_read_pack_contents(files@[j]->Some_0@)->Err_0),
        r is Ok ==> {
            &&& final(scope).path == old(scope).path
            &&& final(scope).options == old(scope).options
            &&& final(scope).meta == old(scope).meta
            &&& final(scope).removed == old(scope).removed
            &&& final(scope).packs is Value
            &&& final(scope).packs->Value_0@.len() == old(scope).packs->Value_0@.len()
            &&& forall|b: int|
                0 <= b < old(scope).packs->Value_0@.len() ==> (#[trigger] final(scope).packs->Value_0@[b])@.len()
                    == old(scope).packs->Value_0@[b]@.len()
            &&& forall|b: int, i: int|
                0 <= b < old(scope).packs->Value_0@.len() && 0 <= i < old(scope).packs->Value_0@[b]@.len() ==> {
                    let p0 = old(scope).packs->Value_0@[b]@[i];
                    let p1 = #[trigger] final(scope).packs->Value_0@[b]@[i];
                    let j = last_at(candidate_positions(candidates@), (b, i));
                    &&& p1.path == p0.path
                    &&& p1.keys == p0.keys
                    &&& j < 0 ==> p1.contents == p0.contents
                    &&& j >= 0 ==> p1.contents is Value && byte_seqs(p1.contents->Value_0@) == file_contents(files@[j])
                }
        },
{
    let ghost fs = files@;
    let results = read_contents(candidates, files)?;
    proof {
        assert(contents_positions(results@) =~= candidate_positions(candidates@));
        assert forall|j: int| 0 <= j < contents_positions(results@).len() implies 0 <= (#[trigger] contents_positions(
            results@,
        )[j]).0 < old(scope).packs->Value_0@.len() && 0 <= contents_positions(results@)[j].1 < old(
            scope,
        ).packs->Value_0@[contents_positions(results@)[j].0]@.len() by {
            assert(candidates@[j].0 == picked(*old(scope), contents_unread(*old(scope)))[j].0);
        }
    }
    let ghost rs = results@;
    set_read_contents(scope, results);
    proof {
        assert forall|b: int, i: int|
            #![trigger old(scope).packs->Value_0@[b]@[i]]
            0 <= b < old(scope).packs->Value_0@.len() && 0 <= i < old(scope).packs->Value_0@[b]@.len() implies {
                let j = last_at(candidate_positions(candidates@), (b, i));
                j >= 0 ==> byte_seqs(rs[j].contents@) == file_contents(fs[j])
            } by {
            lemma_last_at_range(candidate_positions(candidates@), (b, i));
        }
    }
    Ok(())
}

} // verus!
