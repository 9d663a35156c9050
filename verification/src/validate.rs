use vstd::prelude::*;
use vstd::string::StringExecFns;

use crate::error::StorageError;
use crate::hash::{pack_hash, is_hex_name};
use crate::meta::{ScopeMeta, PackFileMeta, current_secs};
use crate::model::{byte_seqs, clone_bytes};
use crate::pack::{Pack, PackKeys, PackContents, pack_keys, spec_pack_loaded};
use crate::scope::PackScope;
use crate::scope_update::scope_shape_ok;
use crate::storage::{FileMeta, PackStorageOptions};
use crate::text::{join_path, spec_join, usize_to_string, ascii_chars, spec_decimal};

verus! {

/// Whether a stored scope can be trusted, and why not.
#[derive(Debug)]
pub enum ValidateResult {
    Valid,
    Invalid(String),
}

/// A pack whose file is checked against the hash recorded for it.
#[derive(Debug)]
pub struct ValidatingPack {
    pub path: String,
    pub hash: String,
    pub keys: PackKeys,
    pub contents: PackContents,
}

/// A pack whose file is checked against its recorded hash, as the batch check
/// takes it.
#[derive(Debug)]
pub struct PackValidateCandidate {
    pub path: String,
    pub hash: String,
    pub keys: PackKeys,
    pub contents: PackContents,
}

pub open spec fn options_changed_message() -> Seq<char> {
    seq![
        's', 'c', 'o', 'p', 'e', ' ', 'o', 'p', 't', 'i', 'o', 'n', 's', ' ', 'c', 'h', 'a', 'n',
        'g', 'e', 'd',
    ]
}

pub open spec fn expired_message() -> Seq<char> {
    seq!['s', 'c', 'o', 'p', 'e', ' ', 'e', 'x', 'p', 'i', 'r', 'e', 'd']
}

pub open spec fn packs_invalid_message() -> Seq<char> {
    seq![
        'p', 'a', 'c', 'k', 's', ' ', 'i', 's', ' ', 'n', 'o', 't', ' ', 'v', 'a', 'l', 'i', 'd',
        'a', 't', 'e',
    ]
}

/// What checking a meta against the options gives at time `now`: invalid when
/// the bucket count or the pack size limit changed, or when more than
/// `expires` seconds passed since it was written.
pub open spec fn meta_verdict(
    meta: ScopeMeta,
    buckets: usize,
    max_pack_size: usize,
    expires: u64,
    now: u64,
) -> Option<Seq<char>> {
    if meta.buckets != buckets || meta.max_pack_size != max_pack_size {
        Some(options_changed_message())
    } else if now - meta.last_modified > expires {
        Some(expired_message())
    } else {
        None
    }
}

/// The verdict as a result.
pub open spec fn verdict_is(r: ValidateResult, v: Option<Seq<char>>) -> bool {
    match v {
        None => r is Valid,
        Some(m) => r matches ValidateResult::Invalid(s) && s@ == m,
    }
}

fn options_changed() -> (r: ValidateResult)
    ensures
        verdict_is(r, Some(options_changed_message())),
{
    let m = "scope options changed";
    proof {
        reveal_strlit("scope options changed");
    }
    let s = String::from_str(m);
    proof {
        assert(s@ =~= options_changed_message());
    }
    ValidateResult::Invalid(s)
}

fn expired() -> (r: ValidateResult)
    ensures
        verdict_is(r, Some(expired_message())),
{
    let m = "scope expired";
    proof {
        reveal_strlit("scope expired");
    }
    let s = String::from_str(m);
    proof {
        assert(s@ =~= expired_message());
    }
    ValidateResult::Invalid(s)
}

fn packs_invalid() -> (r: ValidateResult)
    ensures
        verdict_is(r, Some(packs_invalid_message())),
{
    let m = "packs is not validate";
    proof {
        reveal_strlit("packs is not validate");
    }
    let s = String::from_str(m);
    proof {
        assert(s@ =~= packs_invalid_message());
    }
    ValidateResult::Invalid(s)
}

/// The meta can be checked at `now` without going back in time: when the
/// options agree, `now` is not before the time of writing.
pub open spec fn meta_checkable(meta: ScopeMeta, buckets: usize, max_pack_size: usize, now: u64) -> bool {
    meta.buckets == buckets && meta.max_pack_size == max_pack_size ==> meta.last_modified <= now
}

/// Checks a meta against the options at time `now`.
pub fn check_meta(meta: &ScopeMeta, buckets: usize, max_pack_size: usize, expires: u64, now: u64) -> (r:
    ValidateResult)
    requires
        meta_checkable(*meta, buckets, max_pack_size, now),
    ensures
        verdict_is(r, meta_verdict(*meta, buckets, max_pack_size, expires, now)),
{
    if meta.buckets != buckets || meta.max_pack_size != max_pack_size {
        return options_changed();
    }
    if now - meta.last_modified > expires {
        return expired();
    }
    ValidateResult::Valid
}

/// Checks a meta against the options by the system clock; the error when the
/// clock stands before the Unix epoch or before the time the meta was
/// written.
pub fn check_meta_now(meta: &ScopeMeta, buckets: usize, max_pack_size: usize, expires: u64) -> (r: Result<
    ValidateResult,
    StorageError,
>)
    ensures
        r matches Ok(v) ==> exists|now: u64|
            meta_checkable(*meta, buckets, max_pack_size, now) && #[trigger] verdict_is(
                v,
                meta_verdict(*meta, buckets, max_pack_size, expires, now),
            ),
        r is Err ==> r matches Err(StorageError::Clock),
{
    match current_secs() {
        None => Err(StorageError::Clock),
        Some(now) => {
            if meta.buckets == buckets && meta.max_pack_size == max_pack_size && now
                < meta.last_modified {
                return Err(StorageError::Clock);
            }
            let v = check_meta(meta, buckets, max_pack_size, expires, now);
            Ok(v)
        },
    }
}

/// A scope expires for good: a meta that the check finds valid at some time
/// was valid at every earlier time since it was written, and one found
/// expired stays expired at every later time.
pub proof fn lemma_expiry_monotone(
    meta: ScopeMeta,
    buckets: usize,
    max_pack_size: usize,
    expires: u64,
    t1: u64,
    t2: u64,
)
    requires
        meta.last_modified <= t1 <= t2,
    ensures
        meta_verdict(meta, buckets, max_pack_size, expires, t2) is None ==> meta_verdict(
            meta,
            buckets,
            max_pack_size,
            expires,
            t1,
        ) is None,
        meta_verdict(meta, buckets, max_pack_size, expires, t1) == Some(expired_message())
            ==> meta_verdict(meta, buckets, max_pack_size, expires, t2) == Some(expired_message()),
{
}

/// Checks the meta of a scope against the options of the storage at time
/// `now`.
pub fn validate_meta(scope: &PackScope, options: &PackStorageOptions, now: u64) -> (r: ValidateResult)
    requires
        scope.meta is Value,
        meta_checkable(scope.meta->Value_0, options.buckets, options.max_pack_size, now),
    ensures
        verdict_is(
            r,
            meta_verdict(
                scope.meta->Value_0,
                options.buckets,
                options.max_pack_size,
                options.expires,
                now,
            ),
        ),
{
    let meta = scope.meta.expect_value();
    check_meta(meta, options.buckets, options.max_pack_size, options.expires, now)
}

/// The hash of a pack's file as it stands now, from the pack's keys and the
/// size and time the file system reports; nothing is known of its value but
/// that it is the hexadecimal text of a digest.
pub fn current_hash(keys: &PackKeys, contents: &PackContents, meta: &FileMeta) -> (h: String)
    ensures
        is_hex_name(h@),
{
    pack_hash(keys, contents, meta.size, meta.mtime)
}

/// Whether the file of a pack still matches the hash recorded for it: the
/// current hash of its file equals the recorded one.
pub fn validate_pack(hash: &String, keys: &PackKeys, contents: &PackContents, meta: &FileMeta) -> (r:
    bool)
    ensures
        r ==> is_hex_name(hash@),
{
    let h = current_hash(keys, contents, meta);
    *hash == h
}

/// Whether a candidate matches `h`, the current hash of its file, or `None`
/// when the file cannot be read.
pub open spec fn candidate_ok(c: ValidatingPack, h: Option<String>) -> bool {
    match h {
        None => false,
        Some(x) => c.hash@ == x@,
    }
}

/// The verdict on packs whose files have the current hashes `hashes`
/// (`None` for a file that cannot be read): valid when every candidate's
/// recorded hash equals its current one.
pub fn packs_verdict_with(candidates: &Vec<ValidatingPack>, hashes: &Vec<Option<String>>) -> (r:
    ValidateResult)
    requires
        hashes@.len() == candidates@.len(),
    ensures
        verdict_is(
            r,
            if forall|j: int|
                0 <= j < candidates@.len() ==> candidate_ok(
                    #[trigger] candidates@[j],
                    hashes@[j],
                ) {
                None
            } else {
                Some(packs_invalid_message())
            },
        ),
{
    let mut j: usize = 0;
    while j < candidates.len()
        invariant
            hashes@.len() == candidates@.len(),
            j <= candidates@.len(),
            forall|k: int| 0 <= k < j ==> candidate_ok(#[trigger] candidates@[k], hashes@[k]),
        decreases candidates@.len() - j,
    {
        let ok = match &hashes[j] {
            None => false,
            Some(h) => candidates[j].hash == *h,
        };
        if !ok {
            proof {
                assert(!candidate_ok(candidates@[j as int], hashes@[j as int]));
            }
            return packs_invalid();
        }
        j = j + 1;
    }
    ValidateResult::Valid
}

/// The current hash of each candidate's file, as the file system reports it
/// in `stats`; `None` where it reports nothing.
pub fn current_hashes(candidates: &Vec<ValidatingPack>, stats: &Vec<Option<FileMeta>>) -> (r: Vec<
    Option<String>,
>)
    requires
        stats@.len() == candidates@.len(),
    ensures
        r@.len() == candidates@.len(),
        forall|j: int|
            0 <= j < r@.len() ==> ((#[trigger] r@[j]) is None <==> stats@[j] is None) && (r@[j] matches Some(
                h,
            ) ==> is_hex_name(h@)),
{
    let mut r: Vec<Option<String>> = Vec::new();
    let mut j: usize = 0;
    while j < candidates.len()
        invariant
            stats@.len() == candidates@.len(),
            j <= candidates@.len(),
            r@.len() == j,
            forall|k: int|
                0 <= k < j ==> ((#[trigger] r@[k]) is None <==> stats@[k] is None) && (r@[k] matches Some(
                    h,
                ) ==> is_hex_name(h@)),
        decreases candidates@.len() - j,
    {
        let c = &candidates[j];
        let h = match &stats[j] {
            None => None,
            Some(m) => Some(current_hash(&c.keys, &c.contents, m)),
        };
        r.push(h);
        j = j + 1;
    }
    r
}

/// The verdict on packs whose files the file system reports as `stats`:
/// invalid when a file cannot be read; otherwise decided by the current
/// hashes of the files, as `packs_verdict_with` states.
pub fn packs_verdict(candidates: &Vec<ValidatingPack>, stats: &Vec<Option<FileMeta>>) -> (r:
    ValidateResult)
    requires
        stats@.len() == candidates@.len(),
    ensures
        verdict_is(r, None) || verdict_is(r, Some(packs_invalid_message())),
        (exists|j: int| 0 <= j < stats@.len() && #[trigger] stats@[j] is None) ==> verdict_is(
            r,
            Some(packs_invalid_message()),
        ),
        verdict_is(r, None) ==> forall|j: int|
            0 <= j < candidates@.len() ==> (#[trigger] stats@[j]) is Some && is_hex_name(
                candidates@[j].hash@,
            ),
{
    let hashes = current_hashes(candidates, stats);
    let r = packs_verdict_with(candidates, &hashes);
    proof {
        if exists|j: int| 0 <= j < stats@.len() && #[trigger] stats@[j] is None {
            let j = choose|j: int| 0 <= j < stats@.len() && #[trigger] stats@[j] is None;
            assert(!candidate_ok(candidates@[j], hashes@[j]));
        }
        if forall|j: int| 0 <= j < candidates@.len() ==> candidate_ok(#[trigger] candidates@[j], hashes@[j]) {
            assert forall|j: int| 0 <= j < candidates@.len() implies (#[trigger] stats@[j]) is Some
                && is_hex_name(candidates@[j].hash@) by {
                assert(candidate_ok(candidates@[j], hashes@[j]));
            }
        }
    }
    r
}

/// All positions of the packs of a scope, bucket by bucket.
pub open spec fn positions(mss: Seq<Vec<PackFileMeta>>) -> Seq<(int, int)>
    decreases mss.len(),
{
    if mss.len() == 0 {
        Seq::empty()
    } else {
        positions(mss.drop_last()) + Seq::new(
            mss.last()@.len(),
            |i: int| (mss.len() - 1, i),
        )
    }
}

/// Every position lies in the scope.
pub proof fn lemma_positions(mss: Seq<Vec<PackFileMeta>>)
    ensures
        forall|k: int|
            0 <= k < positions(mss).len() ==> 0 <= (#[trigger] positions(mss)[k]).0 < mss.len() && 0
                <= positions(mss)[k].1 < mss[positions(mss)[k].0]@.len(),
    decreases mss.len(),
{
    if mss.len() > 0 {
        let m1 = mss.drop_last();
        lemma_positions(m1);
        let a = positions(m1);
        let c = Seq::new(mss.last()@.len(), |i: int| (mss.len() - 1, i));
        assert(positions(mss) == a + c);
        assert forall|k: int| 0 <= k < positions(mss).len() implies 0 <= (#[trigger] positions(mss)[k]).0
            < mss.len() && 0 <= positions(mss)[k].1 < mss[positions(mss)[k].0]@.len() by {
            if k < a.len() {
                assert(positions(mss)[k] == a[k]);
                assert(mss[a[k].0] == m1[a[k].0]);
            } else {
                assert(positions(mss)[k] == c[k - a.len()]);
            }
        }
    }
}

/// Candidate `c` checks the pack at `pos` of `s`, found at `path`: its hash is
/// the recorded one, and its keys, taken also as its values, are the pack's.
pub open spec fn candidate_for(s: PackScope, pos: (int, int), path: Seq<char>, c: ValidatingPack) -> bool {
    let m = s.meta->Value_0.packs@[pos.0]@[pos.1];
    let p = s.packs->Value_0@[pos.0]@[pos.1];
    &&& c.path@ == path
    &&& c.hash@ == m.hash@
    &&& byte_seqs(c.keys@) == pack_keys(p)
    &&& byte_seqs(c.contents@) == pack_keys(p)
}

/// Where the first strategy finds the file of the pack at `pos`: the pack's
/// name in the directory of its bucket.
pub open spec fn listed_path(s: PackScope, pos: (int, int)) -> Seq<char> {
    spec_join(
        spec_join(s.path@, ascii_chars(spec_decimal(pos.0 as nat))),
        s.meta->Value_0.packs@[pos.0]@[pos.1].name@,
    )
}

/// Where the split strategy finds the file of the pack at `pos`: the pack's
/// own path.
pub open spec fn pack_path(s: PackScope, pos: (int, int)) -> Seq<char> {
    s.packs->Value_0@[pos.0]@[pos.1].path@
}

/// Where a candidate finds the file of the pack at `pos`.
pub open spec fn candidate_path(s: PackScope, pos: (int, int), by_name: bool) -> Seq<char> {
    if by_name {
        listed_path(s, pos)
    } else {
        pack_path(s, pos)
    }
}

fn copy_keys(v: &Vec<Vec<u8>>) -> (r: Vec<Vec<u8>>)
    ensures
        byte_seqs(r@) == byte_seqs(v@),
{
    let mut r: Vec<Vec<u8>> = Vec::new();
    let mut i: usize = 0;
    while i < v.len()
        invariant
            i <= v@.len(),
            byte_seqs(r@) == byte_seqs(v@).take(i as int),
        decreases v@.len() - i,
    {
        let ghost r0 = byte_seqs(r@);
        r.push(clone_bytes(&v[i]));
        proof {
            assert(byte_seqs(r@) =~= r0.push(v@[i as int]@));
            assert(byte_seqs(v@).take(i + 1) =~= byte_seqs(v@).take(i as int).push(v@[i as int]@));
        }
        i = i + 1;
    }
    proof {
        assert(byte_seqs(v@).take(i as int) =~= byte_seqs(v@));
    }
    r
}

/// The candidates that check every pack of a scope, bucket by bucket: each
/// with the recorded hash and the pack's keys; `by_name` finds a pack's file
/// by its name in its bucket directory, otherwise by the pack's path.
pub fn packs_to_validate(s: &PackScope, by_name: bool) -> (r: Vec<ValidatingPack>)
    requires
        scope_shape_ok(*s),
        forall|b: int, i: int|
            0 <= b < s.packs->Value_0@.len() && 0 <= i < s.packs->Value_0@[b]@.len() ==> (#[trigger] s.packs->Value_0@[b]@[i]).keys is Value,
    ensures
        r@.len() == positions(s.meta->Value_0.packs@).len(),
        forall|j: int|
            0 <= j < r@.len() ==> #[trigger] candidate_for(
                *s,
                positions(s.meta->Value_0.packs@)[j],
                candidate_path(*s, positions(s.meta->Value_0.packs@)[j], by_name),
                r@[j],
            ),
{
    let metas = &s.meta.expect_value().packs;
    let packs = s.packs.expect_value();
    let ghost mss = metas@;
    let mut out: Vec<ValidatingPack> = Vec::new();
    let mut b: usize = 0;
    while b < metas.len()
        invariant
            scope_shape_ok(*s),
            forall|b2: int, i: int|
                0 <= b2 < s.packs->Value_0@.len() && 0 <= i < s.packs->Value_0@[b2]@.len() ==> (#[trigger] s.packs->Value_0@[b2]@[i]).keys is Value,
            *metas == s.meta->Value_0.packs,
            *packs == s.packs->Value_0,
            mss == metas@,
            b <= metas@.len(),
            out@.len() == positions(mss.take(b as int)).len(),
            forall|j: int|
                0 <= j < out@.len() ==> #[trigger] candidate_for(
                    *s,
                    positions(mss.take(b as int))[j],
                    candidate_path(*s, positions(mss.take(b as int))[j], by_name),
                    out@[j],
                ),
        decreases metas@.len() - b,
    {
        let ghost before = positions(mss.take(b as int));
        let dir = join_path(&s.path, &usize_to_string(b));
        let ms = &metas[b];
        let mut i: usize = 0;
        let ghost all = before + Seq::new(ms@.len(), |k: int| (b as int, k));
        proof {
            assert(mss.take(b + 1).drop_last() =~= mss.take(b as int));
            assert(mss.take(b + 1).last() == mss[b as int]);
        }
        while i < ms.len()
            invariant
                scope_shape_ok(*s),
                forall|b2: int, i2: int|
                    0 <= b2 < s.packs->Value_0@.len() && 0 <= i2 < s.packs->Value_0@[b2]@.len() ==> (#[trigger] s.packs->Value_0@[b2]@[i2]).keys is Value,
                *metas == s.meta->Value_0.packs,
                *packs == s.packs->Value_0,
                mss == metas@,
                b < metas@.len(),
                *ms == mss[b as int],
                dir@ == spec_join(s.path@, ascii_chars(spec_decimal(b as nat))),
                i <= ms@.len(),
                before == positions(mss.take(b as int)),
                all == before + Seq::new(ms@.len(), |k: int| (b as int, k)),
                out@.len() == before.len() + i,
                forall|j: int|
                    0 <= j < out@.len() ==> #[trigger] candidate_for(
                        *s,
                        all[j],
                        candidate_path(*s, all[j], by_name),
                        out@[j],
                    ),
            decreases ms@.len() - i,
        {
            let p = &packs[b][i];
            let m = &ms[i];
            let path = if by_name {
                join_path(&dir, &m.name)
            } else {
                p.path.clone()
            };
            let keys = copy_keys(p.keys.expect_value());
            let contents = copy_keys(p.keys.expect_value());
            let c = ValidatingPack { path, hash: m.hash.clone(), keys, contents };
            let ghost o0 = out@;
            out.push(c);
            proof {
                assert(all[before.len() + i] == (b as int, i as int));
                assert forall|j: int| 0 <= j < out@.len() implies #[trigger] candidate_for(
                    *s,
                    all[j],
                    candidate_path(*s, all[j], by_name),
                    out@[j],
                ) by {
                    if j < o0.len() {
                        assert(out@[j] == o0[j]);
                    }
                }
            }
            i = i + 1;
        }
        proof {
            assert(positions(mss.take(b + 1)) =~= all);
        }
        b = b + 1;
    }
    proof {
        assert(mss.take(b as int) =~= mss);
    }
    out
}

} // verus!
