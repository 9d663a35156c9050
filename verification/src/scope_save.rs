use vstd::prelude::*;

use crate::error::StorageError;
use crate::meta_file::{meta_file, meta_file_bytes};
use crate::packing::{SizeRule, lemma_legacy_no_stall};
use crate::paths::spec_temp_path;
use crate::scope::{PackScope, spec_scope_loaded};
use crate::scope_update::{
    update_scope_with, scope_update_outcome, scope_shape_ok, scope_pairs, scope_bucket_updates,
    legacy_buckets, holds_key,
};
use crate::scope::{bucket_items, scope_items};
use crate::scope_law::{legacy_updated, placed_by, lemma_one_bucket_per_key};
use crate::model::keys_distinct;
use crate::scope_write::{
    PackWriteJob, plan_pack_writes, record_pack_writes, write_jobs, writes_recorded,
    lemma_jobs_fit,
};
use crate::split::WritePacksPlan;
use crate::storage::{FileMeta, ScopeSaveResult, WriteScopeResult, add_paths, file_set};
use crate::strategy::PackStrategy;
use crate::update::{
    Update, updates_view, update_limits_ok, inserted_items, update_keys, poured_items,
    removed_flags,
};

verus! {

/// Applies updates to a scope under the first strategy: each update goes to
/// the bucket that holds its key, or, for a new key, to the bucket its key
/// hashes to, and each bucket with updates is repacked. The hashes are a
/// machine's own, so of a new key only that its bucket is in range is known:
/// the outcome is that of a placement of the keys that leaves each held key
/// where it is.
pub fn update_scope(scope: &mut PackScope, updates: Vec<Update>) -> (r: Result<(), StorageError>)
    requires
        scope_shape_ok(*old(scope)),
        update_keys(updates_view(updates@)).no_duplicates(),
    ensures
        r is Ok,
        legacy_updated(*old(scope), updates_view(updates@), *final(scope)),
{
    let total = scope.options.buckets;
    let ids = legacy_buckets(scope, &updates);
    let ghost s0 = *scope;
    let ghost bs = (s0.packs->Value_0)@;
    let ghost keys = update_keys(updates_view(updates@));
    let ghost place = |k: Seq<u8>|
        if exists|i: int| 0 <= i < keys.len() && keys[i] == k {
            ids@[choose|i: int| 0 <= i < keys.len() && keys[i] == k] as int
        } else if exists|b: int| 0 <= b < total && holds_key(bs[b]@, k) {
            choose|b: int| 0 <= b < total && holds_key(bs[b]@, k)
        } else {
            0
        };
    proof {
        assert forall|i: int| 0 <= i < updates@.len() implies ids@[i] == place(#[trigger] updates@[i].0@) by {
            assert(keys[i] == updates@[i].0@);
            let j = choose|j: int| 0 <= j < keys.len() && keys[j] == updates@[i].0@;
            assert(keys[j] == keys[i]);
        }
        assert forall|k: Seq<u8>| 0 <= #[trigger] place(k) < total as int by {
            if exists|i: int| 0 <= i < keys.len() && keys[i] == k {
                let j = choose|i: int| 0 <= i < keys.len() && keys[i] == k;
                assert(ids@[j] < total);
            }
        }
        if keys_distinct(scope_items(s0)) {
            assert forall|b: int, x: (Seq<u8>, Seq<u8>)|
                0 <= b < s0.options.buckets && #[trigger] bucket_items(bs[b]@).contains(x) implies place(
                x.0,
            ) == b by {
                assert(holds_key(bs[b]@, x.0));
                if exists|i: int| 0 <= i < keys.len() && keys[i] == x.0 {
                    let j = choose|i: int| 0 <= i < keys.len() && keys[i] == x.0;
                    assert(keys[j] == updates@[j].0@);
                    assert(ids@[j] < total);
                    lemma_one_bucket_per_key(s0, ids@[j] as int, b, x.0);
                } else {
                    let c = choose|c: int| 0 <= c < total && holds_key(bs[c]@, x.0);
                    lemma_one_bucket_per_key(s0, c, b, x.0);
                }
            }
            assert(placed_by(place, s0));
        }
        assert forall|b: int| 0 <= b < old(scope).options.buckets implies update_limits_ok(
            SizeRule::Legacy,
            #[trigger] scope_pairs(*old(scope), b),
            scope_bucket_updates(place, *old(scope), updates_view(updates@), b),
            old(scope).options.max_pack_size as int,
        ) by {
            let ub = scope_bucket_updates(place, *old(scope), updates_view(updates@), b);
            let pairs = scope_pairs(*old(scope), b);
            let max = old(scope).options.max_pack_size as int;
            lemma_legacy_no_stall(
                poured_items(pairs, removed_flags(SizeRule::Legacy, pairs, ub, max), update_keys(ub))
                    + inserted_items(ub),
                max,
            );
        }
    }
    update_scope_with(scope, updates, SizeRule::Legacy, &ids, Ghost(place));
    proof {
        assert(scope_update_outcome(SizeRule::Legacy, place, s0, updates_view(updates@), *scope));
    }
    Ok(())
}

/// Starts saving a scope under the first strategy: takes the files to remove
/// out of the scope and lists the unwritten packs with their files.
pub fn save_scope(strategy: &PackStrategy, scope: &mut PackScope) -> (plan: WritePacksPlan)
    requires
        scope_shape_ok(*old(scope)),
        spec_scope_loaded(*old(scope)),
    ensures
        plan.removed_files == old(scope).removed,
        final(scope).removed@.len() == 0,
        final(scope).path == old(scope).path,
        final(scope).options == old(scope).options,
        final(scope).meta == old(scope).meta,
        final(scope).packs == old(scope).packs,
        write_jobs(strategy.root@, strategy.temp_root@, *old(scope), plan.jobs@),
{
    let mut removed: Vec<String> = Vec::new();
    std::mem::swap(&mut removed, &mut scope.removed);
    let jobs = plan_pack_writes(&strategy.root, &strategy.temp_root, scope);
    WritePacksPlan { jobs, removed_files: removed }
}

/// Finishes saving a scope under the first strategy: records in the scope the
/// hash of each written pack, whose files the file system reports as `stats`,
/// and gives the temporary path and bytes of the meta file with the written
/// and removed files; the error when the meta lies outside the root.
pub fn finish_save_scope(
    strategy: &PackStrategy,
    scope: &mut PackScope,
    plan: WritePacksPlan,
    stats: Vec<FileMeta>,
) -> (r: Result<(String, Vec<u8>, ScopeSaveResult), StorageError>)
    requires
        scope_shape_ok(*old(scope)),
        spec_scope_loaded(*old(scope)),
        write_jobs(strategy.root@, strategy.temp_root@, *old(scope), plan.jobs@),
        forall|j: int| 0 <= j < plan.jobs@.len() ==> (#[trigger] plan.jobs@[j]).write is Ok,
        stats@.len() == plan.jobs@.len(),
    ensures
        writes_recorded(SizeRule::Legacy, *old(scope), plan.jobs@, stats@, *final(scope)),
        match spec_temp_path(strategy.root@, strategy.temp_root@, old(scope).meta->Value_0.path@) {
            Some(t) => r matches Ok((p, b, res)) && p@ == t && b@ == meta_file(
                SizeRule::Legacy,
                final(scope).meta->Value_0,
            ) && res.wf() && file_set(res.writed_files@) == file_set(
                plan.jobs@.map_values(|j: PackWriteJob| j.path),
            ).insert(old(scope).meta->Value_0.path@) && file_set(res.removed_files@) == file_set(
                plan.removed_files@,
            ),
            None => r matches Err(StorageError::RelativePath),
        },
{
    proof {
        lemma_jobs_fit(strategy.root@, strategy.temp_root@, *old(scope), plan.jobs@);
    }
    let written = record_pack_writes(SizeRule::Legacy, scope, &plan.jobs, &stats);
    let meta = scope.meta.expect_value();
    let mut res = WriteScopeResult::empty();
    add_paths(&mut res.writed_files, written);
    let mut meta_path: Vec<String> = Vec::new();
    meta_path.push(meta.path.clone());
    add_paths(&mut res.writed_files, meta_path);
    add_paths(&mut res.removed_files, plan.removed_files);
    proof {
        assert(file_set(Seq::<String>::empty()) =~= Set::<Seq<char>>::empty());
        assert(file_set(seq![meta.path]) =~= set![meta.path@]) by {
            assert(seq![meta.path].map_values(|s: String| s@) =~= seq![meta.path@]);
            assert(seq![meta.path@].to_set() =~= set![meta.path@]) by {
                broadcast use vstd::seq_lib::group_seq_properties;

            }
        }
    }
    let t = strategy.get_temp_path(&meta.path)?;
    let bytes = meta_file_bytes(SizeRule::Legacy, meta);
    Ok((t, bytes, res))
}

} // verus!
