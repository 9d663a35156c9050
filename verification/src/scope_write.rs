use vstd::prelude::*;

use crate::error::StorageError;
use crate::hash::{pack_hash, is_hex_name};
use crate::meta::PackFileMeta;
use crate::model::{byte_seqs, total_len, lemma_total_len_push};
use crate::pack::{Pack, PackKeysState, PackContentsState, pack_keys, pack_contents, spec_pack_size, spec_pack_loaded};
use crate::pack_file::{pack_file, pack_file_bytes};
use crate::packing::SizeRule;
use crate::paths::{spec_temp_path, temp_path};
use crate::scope::{PackScope, ScopeMetaState, ScopePacksState, spec_scope_loaded};
use crate::scope_update::scope_shape_ok;
use crate::storage::FileMeta;

verus! {

/// The positions of the packs of one bucket not written yet, in order.
pub open spec fn unwritten_in(ms: Seq<PackFileMeta>, b: int) -> Seq<(int, int)>
    decreases ms.len(),
{
    if ms.len() == 0 {
        Seq::empty()
    } else if !ms.last().writed {
        unwritten_in(ms.drop_last(), b).push((b, ms.len() - 1))
    } else {
        unwritten_in(ms.drop_last(), b)
    }
}

/// The positions, bucket by bucket, of the packs not written yet.
pub open spec fn unwritten(mss: Seq<Vec<PackFileMeta>>) -> Seq<(int, int)>
    decreases mss.len(),
{
    if mss.len() == 0 {
        Seq::empty()
    } else {
        unwritten(mss.drop_last()) + unwritten_in(mss.last()@, mss.len() - 1)
    }
}

/// One pack to write: where it lies in the scope, its path, and either its
/// temporary path and the bytes of its file, or why it cannot be written.
#[derive(Debug)]
pub struct PackWriteJob {
    pub bucket: usize,
    pub pos: usize,
    pub path: String,
    pub write: Result<(String, Vec<u8>), StorageError>,
}

/// `job` writes pack `p`: a pack whose keys and values differ in number is
/// refused, as is a pack outside the root; otherwise the job holds its
/// temporary path and its file.
pub open spec fn job_for(root: Seq<char>, temp_root: Seq<char>, p: Pack, job: PackWriteJob) -> bool {
    &&& job.path == p.path
    &&& if pack_keys(p).len() != pack_contents(p).len() {
        job.write matches Err(StorageError::PackLengthMismatch)
    } else {
        match spec_temp_path(root, temp_root, p.path@) {
            None => job.write matches Err(StorageError::RelativePath),
            Some(t) => job.write matches Ok((tp, bytes)) && tp@ == t && bytes@ == pack_file(
                pack_keys(p),
                pack_contents(p),
            ) && spec_pack_size(p) <= usize::MAX,
        }
    }
}

/// The pack at a position of a scope.
pub open spec fn pack_at(s: PackScope, pos: (int, int)) -> Pack {
    s.packs->Value_0@[pos.0]@[pos.1]
}

/// The meta at a position of a scope.
pub open spec fn meta_at(s: PackScope, pos: (int, int)) -> PackFileMeta {
    s.meta->Value_0.packs@[pos.0]@[pos.1]
}

/// The jobs that write the unwritten packs of `s`, in order.
pub open spec fn write_jobs(root: Seq<char>, temp_root: Seq<char>, s: PackScope, jobs: Seq<PackWriteJob>) -> bool {
    let us = unwritten(s.meta->Value_0.packs@);
    &&& jobs.len() == us.len()
    &&& forall|j: int|
        0 <= j < jobs.len() ==> {
            &&& (#[trigger] jobs[j]).bucket == us[j].0
            &&& jobs[j].pos == us[j].1
            &&& job_for(root, temp_root, pack_at(s, us[j]), jobs[j])
        }
}

proof fn lemma_total_len_flatten(s: Seq<Seq<u8>>)
    ensures
        total_len(s) == s.flatten().len(),
    decreases s.len(),
{
    if s.len() > 0 {
        lemma_total_len_flatten(s.drop_last());
        assert(s.drop_last().push(s.last()) =~= s);
        s.drop_last().lemma_flatten_push(s.last());
    }
}

fn job_of(root: &String, temp_root: &String, p: &Pack, b: usize, i: usize) -> (job: PackWriteJob)
    requires
        spec_pack_loaded(*p),
    ensures
        job.bucket == b,
        job.pos == i,
        job_for(root@, temp_root@, *p, job),
{
    let keys = p.keys.expect_value();
    let contents = p.contents.expect_value();
    let write = if keys.len() != contents.len() {
        Err(StorageError::PackLengthMismatch)
    } else {
        match temp_path(root, temp_root, &p.path) {
            Ok(t) => {
                let bytes = pack_file_bytes(keys, contents);
                let file_len = bytes.len();
                proof {
                    let f = pack_file(byte_seqs(keys@), byte_seqs(contents@));
                    lemma_total_len_flatten(byte_seqs(keys@));
                    lemma_total_len_flatten(byte_seqs(contents@));
                    assert(f.len() >= byte_seqs(keys@).flatten().len() + byte_seqs(
                        contents@,
                    ).flatten().len());
                    assert(bytes@.len() == file_len);
                }
                Ok((t, bytes))
            },
            Err(e) => Err(e),
        }
    };
    PackWriteJob { bucket: b, pos: i, path: p.path.clone(), write }
}

/// The jobs that write the packs of `s` not written yet, bucket by bucket.
pub fn plan_pack_writes(root: &String, temp_root: &String, s: &PackScope) -> (jobs: Vec<
    PackWriteJob,
>)
    requires
        scope_shape_ok(*s),
        spec_scope_loaded(*s),
    ensures
        write_jobs(root@, temp_root@, *s, jobs@),
{
    let metas = &s.meta.expect_value().packs;
    let packs = s.packs.expect_value();
    let ghost mss = metas@;
    let mut jobs: Vec<PackWriteJob> = Vec::new();
    let mut b: usize = 0;
    while b < metas.len()
        invariant
            scope_shape_ok(*s),
            spec_scope_loaded(*s),
            *metas == s.meta->Value_0.packs,
            *packs == s.packs->Value_0,
            mss == metas@,
            b <= metas@.len(),
            jobs@.len() == unwritten(mss.take(b as int)).len(),
            forall|j: int|
                0 <= j < jobs@.len() ==> {
                    &&& (#[trigger] jobs@[j]).bucket == unwritten(mss.take(b as int))[j].0
                    &&& jobs@[j].pos == unwritten(mss.take(b as int))[j].1
                    &&& job_for(
                        root@,
                        temp_root@,
                        pack_at(*s, unwritten(mss.take(b as int))[j]),
                        jobs@[j],
                    )
                },
        decreases metas@.len() - b,
    {
        let ms = &metas[b];
        let ghost before = unwritten(mss.take(b as int));
        let ghost j0 = jobs@.len();
        let mut i: usize = 0;
        proof {
            assert(ms@.take(0) =~= Seq::<PackFileMeta>::empty());
            assert(before + unwritten_in(ms@.take(0), b as int) =~= before);
        }
        while i < ms.len()
            invariant
                scope_shape_ok(*s),
                spec_scope_loaded(*s),
                *metas == s.meta->Value_0.packs,
                *packs == s.packs->Value_0,
                mss == metas@,
                b < metas@.len(),
                *ms == mss[b as int],
                i <= ms@.len(),
                before == unwritten(mss.take(b as int)),
                jobs@.len() == (before + unwritten_in(ms@.take(i as int), b as int)).len(),
                forall|j: int|
                    0 <= j < jobs@.len() ==> {
                        &&& (#[trigger] jobs@[j]).bucket == (before + unwritten_in(
                            ms@.take(i as int),
                            b as int,
                        ))[j].0
                        &&& jobs@[j].pos == (before + unwritten_in(ms@.take(i as int), b as int))[j].1
                        &&& job_for(
                            root@,
                            temp_root@,
                            pack_at(*s, (before + unwritten_in(ms@.take(i as int), b as int))[j]),
                            jobs@[j],
                        )
                    },
            decreases ms@.len() - i,
        {
            proof {
                assert(ms@.take(i + 1).drop_last() =~= ms@.take(i as int));
                assert(ms@.take(i + 1).last() == ms@[i as int]);
            }
            if !ms[i].writed {
                proof {
                    assert(s.meta->Value_0.packs@[b as int]@.len() == s.packs->Value_0@[b as int]@.len());
                    assert(spec_pack_loaded(s.packs->Value_0@[b as int]@[i as int]));
                }
                let job = job_of(root, temp_root, &packs[b][i], b, i);
                let ghost old_jobs = jobs@;
                jobs.push(job);
                proof {
                    let cur = before + unwritten_in(ms@.take(i as int), b as int);
                    let next = before + unwritten_in(ms@.take(i + 1), b as int);
                    assert(next =~= cur.push((b as int, i as int)));
                    assert forall|j: int| 0 <= j < jobs@.len() implies {
                        &&& (#[trigger] jobs@[j]).bucket == next[j].0
                        &&& jobs@[j].pos == next[j].1
                        &&& job_for(root@, temp_root@, pack_at(*s, next[j]), jobs@[j])
                    } by {
                        if j < old_jobs.len() {
                            assert(jobs@[j] == old_jobs[j]);
                            assert(next[j] == cur[j]);
                        } else {
                            assert(next[j] == (b as int, i as int));
                        }
                    }
                }
            } else {
                proof {
                    assert(unwritten_in(ms@.take(i + 1), b as int) == unwritten_in(
                        ms@.take(i as int),
                        b as int,
                    ));
                }
            }
            i = i + 1;
        }
        proof {
            assert(ms@.take(i as int) =~= ms@);
            assert(mss.take(b + 1).drop_last() =~= mss.take(b as int));
            assert(mss.take(b + 1).last() == mss[b as int]);
            assert(unwritten(mss.take(b + 1)) == before + unwritten_in(ms@, b as int));
        }
        b = b + 1;
    }
    proof {
        assert(mss.take(b as int) =~= mss);
    }
    jobs
}

/// Whether position `pos` is written by one of the jobs.
pub open spec fn job_at(jobs: Seq<PackWriteJob>, pos: (int, int)) -> bool {
    exists|j: int| 0 <= j < jobs.len() && (#[trigger] jobs[j]).bucket == pos.0 && jobs[j].pos == pos.1
}

/// The meta of a written pack: its hash the hexadecimal text of a digest (of
/// its keys and the size and time of its file, whose value is the hasher's
/// own), its size under the split rule, and marked written.
pub open spec fn written_meta(
    rule: SizeRule,
    old: PackFileMeta,
    p: Pack,
    st: FileMeta,
    new: PackFileMeta,
) -> bool {
    &&& is_hex_name(new.hash@)
    &&& new.name == old.name
    &&& new.size == (if rule is Split {
        spec_pack_size(p) as usize
    } else {
        old.size
    })
    &&& new.writed
}

/// What recording the written packs leaves: everything but the metas of the
/// written packs stays; each of those records its file.
pub open spec fn writes_recorded(
    rule: SizeRule,
    s: PackScope,
    jobs: Seq<PackWriteJob>,
    stats: Seq<FileMeta>,
    after: PackScope,
) -> bool {
    &&& after.path == s.path
    &&& after.options == s.options
    &&& after.packs == s.packs
    &&& after.removed == s.removed
    &&& after.meta is Value
    &&& after.meta->Value_0.path == s.meta->Value_0.path
    &&& after.meta->Value_0.buckets == s.meta->Value_0.buckets
    &&& after.meta->Value_0.max_pack_size == s.meta->Value_0.max_pack_size
    &&& after.meta->Value_0.last_modified == s.meta->Value_0.last_modified
    &&& after.meta->Value_0.packs@.len() == s.meta->Value_0.packs@.len()
    &&& forall|b: int|
        0 <= b < s.meta->Value_0.packs@.len() ==> (#[trigger] after.meta->Value_0.packs@[b])@.len()
            == s.meta->Value_0.packs@[b]@.len()
    &&& forall|j: int|
        0 <= j < jobs.len() ==> written_meta(
            rule,
            meta_at(s, ((#[trigger] jobs[j]).bucket as int, jobs[j].pos as int)),
            pack_at(s, (jobs[j].bucket as int, jobs[j].pos as int)),
            stats[j],
            meta_at(after, (jobs[j].bucket as int, jobs[j].pos as int)),
        )
    &&& forall|b: int, i: int|
        0 <= b < s.meta->Value_0.packs@.len() && 0 <= i < s.meta->Value_0.packs@[b]@.len()
            && !job_at(jobs, (b, i)) ==> #[trigger] meta_at(after, (b, i)) == meta_at(s, (b, i))
}

/// The jobs name distinct positions of the scope, each a written pack.
pub open spec fn jobs_fit(rule: SizeRule, s: PackScope, jobs: Seq<PackWriteJob>) -> bool {
    &&& forall|j: int|
        0 <= j < jobs.len() ==> {
            &&& (#[trigger] jobs[j]).bucket < s.meta->Value_0.packs@.len()
            &&& jobs[j].pos < s.meta->Value_0.packs@[jobs[j].bucket as int]@.len()
            &&& jobs[j].write is Ok
            &&& rule is Split ==> spec_pack_size(pack_at(s, (jobs[j].bucket as int, jobs[j].pos as int)))
                <= usize::MAX
        }
    &&& forall|j: int, k: int|
        0 <= j < k < jobs.len() ==> !((#[trigger] jobs[j]).bucket == (#[trigger] jobs[k]).bucket
            && jobs[j].pos == jobs[k].pos)
}

/// Records the written packs in the metas of `s`: each job's pack gets the
/// hash of its file, whose size and time are `stats`, in order. Returns the
/// paths of the written packs.
pub fn record_pack_writes(
    rule: SizeRule,
    s: &mut PackScope,
    jobs: &Vec<PackWriteJob>,
    stats: &Vec<FileMeta>,
) -> (written: Vec<String>)
    requires
        scope_shape_ok(*old(s)),
        spec_scope_loaded(*old(s)),
        stats@.len() == jobs@.len(),
        jobs_fit(rule, *old(s), jobs@),
    ensures
        writes_recorded(rule, *old(s), jobs@, stats@, *final(s)),
        written@ == jobs@.map_values(|j: PackWriteJob| j.path),
{
    let ghost s0 = *s;
    let mut meta = match s.meta.take_value() {
        Some(m) => m,
        None => {
            assert(false);
            unreached()
        },
    };
    let packs = s.packs.expect_value();
    let mut written: Vec<String> = Vec::new();
    let mut j: usize = 0;
    while j < jobs.len()
        invariant
            s0.meta is Value,
            s0.packs is Value,
            scope_shape_ok(s0),
            spec_scope_loaded(s0),
            *packs == s0.packs->Value_0,
            stats@.len() == jobs@.len(),
            jobs_fit(rule, s0, jobs@),
            j <= jobs@.len(),
            meta.path == s0.meta->Value_0.path,
            meta.buckets == s0.meta->Value_0.buckets,
            meta.max_pack_size == s0.meta->Value_0.max_pack_size,
            meta.last_modified == s0.meta->Value_0.last_modified,
            meta.packs@.len() == s0.meta->Value_0.packs@.len(),
            forall|b: int|
                0 <= b < meta.packs@.len() ==> (#[trigger] meta.packs@[b])@.len()
                    == s0.meta->Value_0.packs@[b]@.len(),
            forall|k: int|
                0 <= k < j ==> written_meta(
                    rule,
                    meta_at(s0, ((#[trigger] jobs@[k]).bucket as int, jobs@[k].pos as int)),
                    pack_at(s0, (jobs@[k].bucket as int, jobs@[k].pos as int)),
                    stats@[k],
                    meta.packs@[jobs@[k].bucket as int]@[jobs@[k].pos as int],
                ),
            forall|b: int, i: int|
                0 <= b < meta.packs@.len() && 0 <= i < meta.packs@[b]@.len() && !job_at(
                    jobs@.take(j as int),
                    (b, i),
                ) ==> #[trigger] meta.packs@[b]@[i] == meta_at(s0, (b, i)),
            written@ == jobs@.take(j as int).map_values(|x: PackWriteJob| x.path),
        decreases jobs@.len() - j,
    {
        let b = jobs[j].bucket;
        let i = jobs[j].pos;
        let p = &packs[b][i];
        proof {
            assert(spec_pack_loaded(pack_at(s0, (b as int, i as int))));
            assert(meta.packs@[b as int]@[i as int] == meta_at(s0, (b as int, i as int))) by {
                if job_at(jobs@.take(j as int), (b as int, i as int)) {
                    let k = choose|k: int|
                        0 <= k < jobs@.take(j as int).len() && (#[trigger] jobs@.take(j as int)[k]).bucket
                            == b && jobs@.take(j as int)[k].pos == i;
                    assert(jobs@[k] == jobs@.take(j as int)[k]);
                    assert(jobs@[j as int] == jobs@[j as int]);
                }
            }
        }
        let keys = p.keys.expect_value();
        let contents = p.contents.expect_value();
        let hash = pack_hash(keys, contents, stats[j].size, stats[j].mtime);
        let old_meta = &meta.packs[b][i];
        let size: usize = match rule {
            SizeRule::Split => p.size(),
            SizeRule::Legacy => old_meta.size,
        };
        let new_meta = PackFileMeta { hash, name: old_meta.name.clone(), size, writed: true };
        let ghost mp0 = meta.packs@;
        let mut bucket: Vec<PackFileMeta> = Vec::new();
        std::mem::swap(&mut meta.packs[b], &mut bucket);
        bucket.set(i, new_meta);
        meta.packs.set(b, bucket);
        proof {
            assert(meta.packs@ == mp0.update(b as int, meta.packs@[b as int]));
            assert(meta.packs@[b as int]@ == mp0[b as int]@.update(i as int, new_meta));
            assert forall|k: int| 0 <= k < j + 1 implies written_meta(
                rule,
                meta_at(s0, ((#[trigger] jobs@[k]).bucket as int, jobs@[k].pos as int)),
                pack_at(s0, (jobs@[k].bucket as int, jobs@[k].pos as int)),
                stats@[k],
                meta.packs@[jobs@[k].bucket as int]@[jobs@[k].pos as int],
            ) by {
                if k < j {
                    assert(!(jobs@[k].bucket == jobs@[j as int].bucket && jobs@[k].pos
                        == jobs@[j as int].pos));
                    if jobs@[k].bucket == b {
                        assert(meta.packs@[b as int]@[jobs@[k].pos as int] == mp0[b as int]@[jobs@[k].pos as int]);
                    } else {
                        assert(meta.packs@[jobs@[k].bucket as int] == mp0[jobs@[k].bucket as int]);
                    }
                }
            }
            assert forall|b2: int, i2: int|
                0 <= b2 < meta.packs@.len() && 0 <= i2 < meta.packs@[b2]@.len() && !job_at(
                    jobs@.take(j + 1),
                    (b2, i2),
                ) implies #[trigger] meta.packs@[b2]@[i2] == meta_at(s0, (b2, i2)) by {
                assert(!(b2 == b && i2 == i)) by {
                    if b2 == b && i2 == i {
                        assert(jobs@.take(j + 1)[j as int] == jobs@[j as int]);
                    }
                }
                assert(!job_at(jobs@.take(j as int), (b2, i2))) by {
                    if job_at(jobs@.take(j as int), (b2, i2)) {
                        let k = choose|k: int|
                            0 <= k < jobs@.take(j as int).len() && (#[trigger] jobs@.take(j as int)[k]).bucket
                                == b2 && jobs@.take(j as int)[k].pos == i2;
                        assert(jobs@.take(j + 1)[k] == jobs@.take(j as int)[k]);
                    }
                }
                if b2 == b {
                    assert(meta.packs@[b2]@[i2] == mp0[b2]@[i2]);
                } else {
                    assert(meta.packs@[b2] == mp0[b2]);
                }
            }
        }
        written.push(jobs[j].path.clone());
        proof {
            assert(jobs@.take(j + 1) =~= jobs@.take(j as int).push(jobs@[j as int]));
            assert(jobs@.take(j + 1).map_values(|x: PackWriteJob| x.path) =~= jobs@.take(
                j as int,
            ).map_values(|x: PackWriteJob| x.path).push(jobs@[j as int].path));
        }
        j = j + 1;
    }
    proof {
        assert(jobs@.take(j as int) =~= jobs@);
    }
    s.meta = ScopeMetaState::Value(meta);
    written
}

} // verus!

verus! {

proof fn lemma_unwritten_in(ms: Seq<PackFileMeta>, b: int)
    ensures
        forall|j: int|
            0 <= j < unwritten_in(ms, b).len() ==> (#[trigger] unwritten_in(ms, b)[j]).0 == b && 0
                <= unwritten_in(ms, b)[j].1 < ms.len() && !ms[unwritten_in(ms, b)[j].1].writed,
        forall|j: int, k: int|
            0 <= j < k < unwritten_in(ms, b).len() ==> (#[trigger] unwritten_in(ms, b)[j]).1
                < (#[trigger] unwritten_in(ms, b)[k]).1,
    decreases ms.len(),
{
    if ms.len() > 0 {
        let m1 = ms.drop_last();
        lemma_unwritten_in(m1, b);
        assert forall|j: int| 0 <= j < unwritten_in(m1, b).len() implies !ms[(#[trigger] unwritten_in(m1, b)[j]).1].writed by {
            assert(ms[unwritten_in(m1, b)[j].1] == m1[unwritten_in(m1, b)[j].1]);
        }
    }
}

/// The unwritten positions lie in the scope, name unwritten packs, and come
/// in increasing order, so no position occurs twice.
pub proof fn lemma_unwritten(mss: Seq<Vec<PackFileMeta>>)
    ensures
        forall|j: int|
            0 <= j < unwritten(mss).len() ==> 0 <= (#[trigger] unwritten(mss)[j]).0 < mss.len() && 0
                <= unwritten(mss)[j].1 < mss[unwritten(mss)[j].0]@.len()
                && !mss[unwritten(mss)[j].0]@[unwritten(mss)[j].1].writed,
        forall|j: int, k: int|
            0 <= j < k < unwritten(mss).len() ==> (#[trigger] unwritten(mss)[j]).0 < (#[trigger] unwritten(
                mss,
            )[k]).0 || (unwritten(mss)[j].0 == unwritten(mss)[k].0 && unwritten(mss)[j].1
                < unwritten(mss)[k].1),
    decreases mss.len(),
{
    if mss.len() > 0 {
        let m1 = mss.drop_last();
        let b = mss.len() - 1;
        lemma_unwritten(m1);
        lemma_unwritten_in(mss.last()@, b);
        let a = unwritten(m1);
        let c = unwritten_in(mss.last()@, b);
        assert(unwritten(mss) == a + c);
        assert forall|j: int| 0 <= j < a.len() implies 0 <= (#[trigger] a[j]).0 < mss.len() && 0 <= a[j].1
            < mss[a[j].0]@.len() && !mss[a[j].0]@[a[j].1].writed by {
            assert(mss[a[j].0] == m1[a[j].0]);
        }
        assert(forall|j: int| 0 <= j < c.len() ==> mss[(#[trigger] c[j]).0] == mss.last());
    }
}

/// Jobs made for a scope fit it once each has its file.
pub proof fn lemma_jobs_fit(root: Seq<char>, temp_root: Seq<char>, s: PackScope, jobs: Seq<PackWriteJob>)
    requires
        scope_shape_ok(s),
        write_jobs(root, temp_root, s, jobs),
        forall|j: int| 0 <= j < jobs.len() ==> (#[trigger] jobs[j]).write is Ok,
    ensures
        jobs_fit(SizeRule::Split, s, jobs),
        jobs_fit(SizeRule::Legacy, s, jobs),
{
    let us = unwritten(s.meta->Value_0.packs@);
    lemma_unwritten(s.meta->Value_0.packs@);
    assert forall|j: int, k: int| 0 <= j < k < jobs.len() implies !((#[trigger] jobs[j]).bucket
        == (#[trigger] jobs[k]).bucket && jobs[j].pos == jobs[k].pos) by {
        assert(us[j].0 < us[k].0 || (us[j].0 == us[k].0 && us[j].1 < us[k].1));
    }
    assert forall|j: int| 0 <= j < jobs.len() implies (#[trigger] jobs[j]).bucket < s.meta->Value_0.packs@.len()
        && jobs[j].pos < s.meta->Value_0.packs@[jobs[j].bucket as int]@.len() by {
        assert(0 <= us[j].0 < s.meta->Value_0.packs@.len());
    }
}

} // verus!

verus! {

proof fn lemma_unwritten_in_complete(ms: Seq<PackFileMeta>, b: int, i: int)
    requires
        0 <= i < ms.len(),
        !ms[i].writed,
    ensures
        exists|j: int| 0 <= j < unwritten_in(ms, b).len() && #[trigger] unwritten_in(ms, b)[j] == (b, i),
    decreases ms.len(),
{
    let r = unwritten_in(ms, b);
    if i == ms.len() - 1 {
        assert(r == unwritten_in(ms.drop_last(), b).push((b, i)));
        assert(r[r.len() - 1] == (b, i));
    } else {
        assert(ms.drop_last()[i] == ms[i]);
        lemma_unwritten_in_complete(ms.drop_last(), b, i);
        let j = choose|j: int| 0 <= j < unwritten_in(ms.drop_last(), b).len() && #[trigger] unwritten_in(ms.drop_last(), b)[j] == (b, i);
        assert(r[j] == (b, i));
    }
}

proof fn lemma_unwritten_complete(mss: Seq<Vec<PackFileMeta>>, b: int, i: int)
    requires
        0 <= b < mss.len(),
        0 <= i < mss[b]@.len(),
        !mss[b]@[i].writed,
    ensures
        exists|j: int| 0 <= j < unwritten(mss).len() && #[trigger] unwritten(mss)[j] == (b, i),
    decreases mss.len(),
{
    let m1 = mss.drop_last();
    let a = unwritten(m1);
    let c = unwritten_in(mss.last()@, mss.len() - 1);
    assert(unwritten(mss) == a + c);
    if b == mss.len() - 1 {
        lemma_unwritten_in_complete(mss.last()@, b, i);
        let j = choose|j: int| 0 <= j < c.len() && #[trigger] c[j] == (b, i);
        assert(unwritten(mss)[a.len() + j] == (b, i));
    } else {
        assert(m1[b] == mss[b]);
        lemma_unwritten_complete(m1, b, i);
        let j = choose|j: int| 0 <= j < a.len() && #[trigger] a[j] == (b, i);
        assert(unwritten(mss)[j] == (b, i));
    }
}

/// Saving a scope leaves every pack written: the jobs made for it cover each
/// pack not written yet, and recording the writes marks each of them written,
/// while the packs already written stay as they were.
pub proof fn lemma_save_writes_all(
    rule: SizeRule,
    root: Seq<char>,
    temp_root: Seq<char>,
    s: PackScope,
    jobs: Seq<PackWriteJob>,
    stats: Seq<FileMeta>,
    after: PackScope,
)
    requires
        scope_shape_ok(s),
        write_jobs(root, temp_root, s, jobs),
        writes_recorded(rule, s, jobs, stats, after),
    ensures
        forall|b: int, i: int|
            0 <= b < after.meta->Value_0.packs@.len() && 0 <= i < after.meta->Value_0.packs@[b]@.len()
                ==> (#[trigger] after.meta->Value_0.packs@[b]@[i]).writed,
{
    let mss = s.meta->Value_0.packs@;
    let us = unwritten(mss);
    lemma_unwritten(mss);
    assert forall|b: int, i: int|
        0 <= b < after.meta->Value_0.packs@.len() && 0 <= i < after.meta->Value_0.packs@[b]@.len()
            implies (#[trigger] after.meta->Value_0.packs@[b]@[i]).writed by {
        if job_at(jobs, (b, i)) {
            let j = choose|j: int| 0 <= j < jobs.len() && (#[trigger] jobs[j]).bucket == b && jobs[j].pos == i;
            assert(meta_at(after, (jobs[j].bucket as int, jobs[j].pos as int)).writed);
        } else {
            assert(meta_at(after, (b, i)) == meta_at(s, (b, i)));
            if !mss[b]@[i].writed {
                lemma_unwritten_complete(mss, b, i);
                let j = choose|j: int| 0 <= j < us.len() && #[trigger] us[j] == (b, i);
                assert(jobs[j].bucket == b && jobs[j].pos == i);
            }
        }
    }
}

} // verus!
