use vstd::prelude::*;

use crate::bucket::bucket_computable;
use crate::error::{StorageError, PackFsErrorOpt};
use crate::meta::PackFileMeta;
use crate::meta_file::{
    meta_file, meta_file_bytes, read_scope_meta, spec_read_scope_meta, meta_records, MetaFault,
};
use crate::meta::ScopeMeta;
use crate::error::invalid_utf8_message;
use crate::model::byte_seqs;
use crate::options::PackOptions;
use crate::pack::Pack;
use crate::pack_file::{
    pack_file, pack_file_bytes, read_pack_keys, read_pack_contents, keys_header_ok,
    contents_header_ok, spec_read_pack_keys, spec_read_pack_contents,
};
use crate::packing::SizeRule;
use crate::paths::{spec_temp_path, temp_path};
use crate::scope::{PackScope, spec_scope_loaded};
use crate::scope_update::{
    update_scope_with, scope_update_outcome, scope_shape_ok, scope_pairs, scope_bucket_updates,
};
use crate::scope_write::{
    PackWriteJob, plan_pack_writes, record_pack_writes, write_jobs, writes_recorded,
    lemma_jobs_fit,
};
use crate::storage::{FileMeta, WriteScopeResult, add_paths, file_set, files_distinct};
use crate::strategy::{spec_temp_moves, temp_moves};
use crate::update::{
    Update, PackIncrementalResult, update_packs, update_outcome, updates_view, update_limits_ok,
};
use crate::hash::is_hex_name;
use crate::bucket::split_place;
use crate::scope_update::update_buckets;
use crate::update::update_keys;
use crate::validate::{
    ValidateResult, ValidatingPack, check_meta, check_meta_now, meta_checkable, meta_verdict,
    verdict_is, packs_to_validate, positions, candidate_for, candidate_path, packs_verdict,
    packs_invalid_message,
};

verus! {

/// The split strategy: packs laid out by the size of keys and values,
/// buckets chosen by the byte sum of keys, and a meta file that records each
/// pack's name, hash and size.
#[derive(Debug)]
pub struct SplitPackStrategy {
    pub root: String,
    pub temp_root: String,
}

/// A strategy that reads and writes scopes.
pub trait ScopeStrategy {}

/// A strategy that reads, writes and checks packs.
pub trait PackStrategy {}

impl ScopeStrategy for SplitPackStrategy {}

impl PackStrategy for SplitPackStrategy {}

/// The packs a save writes, and the files it removes.
#[derive(Debug)]
pub struct WritePacksPlan {
    pub jobs: Vec<PackWriteJob>,
    pub removed_files: Vec<String>,
}

impl SplitPackStrategy {
    pub fn new(root: String, temp_root: String) -> (r: SplitPackStrategy)
        ensures
            r.root == root,
            r.temp_root == temp_root,
    {
        SplitPackStrategy { root, temp_root }
    }

    /// Where `path` is written before the save moves it in place.
    pub fn get_temp_path(&self, path: &String) -> (r: Result<String, StorageError>)
        ensures
            match spec_temp_path(self.root@, self.temp_root@, path@) {
                Some(t) => r matches Ok(s) && s@ == t,
                None => r matches Err(StorageError::RelativePath),
            },
    {
        temp_path(&self.root, &self.temp_root, path)
    }

    /// The temporary and final paths of written files, for moving them in
    /// place after a save.
    pub fn temp_file_moves(&self, files: &Vec<String>) -> (r: Result<
        Vec<(String, String)>,
        StorageError,
    >)
        ensures
            match spec_temp_moves(self.root@, self.temp_root@, files@) {
                Some(ms) => r matches Ok(v) && v@.map_values(|m: (String, String)| (m.0@, m.1@))
                    == ms,
                None => r matches Err(StorageError::RelativePath),
            },
    {
        temp_moves(&self.root, &self.temp_root, files)
    }

    /// Applies the updates of one bucket to its packs: small packs and packs
    /// that hold an updated key are removed, and their other items are laid
    /// out anew with the set items.
    pub fn update_pack(
        &self,
        dir: String,
        options: &PackOptions,
        packs: Vec<(PackFileMeta, Pack)>,
        updates: Vec<Update>,
    ) -> (r: PackIncrementalResult)
        requires
            update_keys(updates_view(updates@)).no_duplicates(),
            update_limits_ok(
                SizeRule::Split,
                packs@,
                updates_view(updates@),
                options.max_pack_size as int,
            ),
        ensures
            update_outcome(
                SizeRule::Split,
                dir@,
                options.max_pack_size as int,
                packs@,
                updates_view(updates@),
                r.remain_packs@,
                r.new_packs@,
                r.removed_files@,
            ),
    {
        update_packs(&dir, options.max_pack_size, SizeRule::Split, packs, updates)
    }

    /// The temporary path and the bytes of the pack file for `keys` and
    /// `contents` at `path`.
    pub fn write_pack(&self, path: &String, keys: &Vec<Vec<u8>>, contents: &Vec<Vec<u8>>) -> (r:
        Result<(String, Vec<u8>), StorageError>)
        ensures
            match spec_temp_path(self.root@, self.temp_root@, path@) {
                Some(t) => r matches Ok((p, b)) && p@ == t && b@ == pack_file(
                    byte_seqs(keys@),
                    byte_seqs(contents@),
                ),
                None => r matches Err(StorageError::RelativePath),
            },
    {
        let t = self.get_temp_path(path)?;
        Ok((t, pack_file_bytes(keys, contents)))
    }

    /// The keys of the pack file at `path`, whose bytes are `file`.
    pub fn read_pack_keys(&self, path: &String, file: Option<Vec<u8>>) -> (r: Result<
        Option<Vec<Vec<u8>>>,
        StorageError,
    >)
        requires
            file matches Some(d) ==> keys_header_ok(d@),
        ensures
            file is None ==> r matches Ok(None),
            file matches Some(d) ==> match spec_read_pack_keys(d@) {
                Ok(ks) => r matches Ok(Some(v)) && byte_seqs(v@) == ks,
                Err(m) => r matches Err(StorageError::Fs(e)) && e.file@ == path@ && e.opt
                    == PackFsErrorOpt::Read && e.inner@ == m,
            },
    {
        read_pack_keys(path, file)
    }

    /// The values of the pack file at `path`, whose bytes are `file`.
    pub fn read_pack_contents(&self, path: &String, file: Option<Vec<u8>>) -> (r: Result<
        Option<Vec<Vec<u8>>>,
        StorageError,
    >)
        requires
            file matches Some(d) ==> contents_header_ok(d@),
        ensures
            file is None ==> r matches Ok(None),
            file matches Some(d) ==> match spec_read_pack_contents(d@) {
                Ok(cs) => r matches Ok(Some(v)) && byte_seqs(v@) == cs,
                Err(m) => r matches Err(StorageError::Fs(e)) && e.file@ == path@ && e.opt
                    == PackFsErrorOpt::Read && e.inner@ == m,
            },
    {
        read_pack_contents(path, file)
    }

    /// Applies updates to a scope whose packs are all read; the error when
    /// they are not, and then the scope stays as it was.
    pub fn update_scope(&self, scope: &mut PackScope, updates: Vec<Update>) -> (r: Result<
        (),
        StorageError,
    >)
        requires
            update_keys(updates_view(updates@)).no_duplicates(),
            spec_scope_loaded(*old(scope)) ==> {
                &&& scope_shape_ok(*old(scope))
                &&& forall|i: int|
                    0 <= i < updates@.len() ==> bucket_computable(
                        SizeRule::Split,
                        #[trigger] updates@[i].0@,
                    )
                &&& forall|b: int|
                    0 <= b < old(scope).options.buckets ==> update_limits_ok(
                        SizeRule::Split,
                        #[trigger] scope_pairs(*old(scope), b),
                        scope_bucket_updates(
                            split_place(old(scope).options.buckets),
                            *old(scope),
                            updates_view(updates@),
                            b,
                        ),
                        old(scope).options.max_pack_size as int,
                    )
            },
        ensures
            !spec_scope_loaded(*old(scope)) ==> (r matches Err(StorageError::ScopeNotLoaded)
                && *final(scope) == *old(scope)),
            spec_scope_loaded(*old(scope)) ==> r is Ok && scope_update_outcome(
                SizeRule::Split,
                split_place(old(scope).options.buckets),
                *old(scope),
                updates_view(updates@),
                *final(scope),
            ),
    {
        if !scope.loaded() {
            return Err(StorageError::ScopeNotLoaded);
        }
        let total = scope.options.buckets;
        let ids = update_buckets(SizeRule::Split, &updates, total);
        update_scope_with(scope, updates, SizeRule::Split, &ids, Ghost(split_place(total)));
        Ok(())
    }

    /// Starts writing the packs of a loaded scope: takes the files to remove
    /// out of the scope and lists the unwritten packs with their files. The
    /// error when the scope is not loaded, and then it stays as it was.
    pub fn write_packs(&self, scope: &mut PackScope) -> (r: Result<WritePacksPlan, StorageError>)
        requires
            spec_scope_loaded(*old(scope)) ==> scope_shape_ok(*old(scope)),
        ensures
            !spec_scope_loaded(*old(scope)) ==> (r matches Err(StorageError::ScopeNotLoaded)
                && *final(scope) == *old(scope)),
            spec_scope_loaded(*old(scope)) ==> (r matches Ok(plan) && {
                &&& plan.removed_files == old(scope).removed
                &&& final(scope).removed@.len() == 0
                &&& final(scope).path == old(scope).path
                &&& final(scope).options == old(scope).options
                &&& final(scope).meta == old(scope).meta
                &&& final(scope).packs == old(scope).packs
                &&& write_jobs(self.root@, self.temp_root@, *old(scope), plan.jobs@)
            }),
    {
        if !scope.loaded() {
            return Err(StorageError::ScopeNotLoaded);
        }
        let mut removed: Vec<String> = Vec::new();
        std::mem::swap(&mut removed, &mut scope.removed);
        let jobs = plan_pack_writes(&self.root, &self.temp_root, scope);
        Ok(WritePacksPlan { jobs, removed_files: removed })
    }

    /// Finishes writing the packs: records in the scope the hash and size of
    /// each written pack, whose files the file system reports as `stats`, in
    /// the order of the jobs; returns the written and the removed files.
    pub fn finish_write_packs(
        &self,
        scope: &mut PackScope,
        plan: WritePacksPlan,
        stats: Vec<FileMeta>,
    ) -> (r: WriteScopeResult)
        requires
            scope_shape_ok(*old(scope)),
            spec_scope_loaded(*old(scope)),
            write_jobs(self.root@, self.temp_root@, *old(scope), plan.jobs@),
            forall|j: int| 0 <= j < plan.jobs@.len() ==> (#[trigger] plan.jobs@[j]).write is Ok,
            stats@.len() == plan.jobs@.len(),
        ensures
            writes_recorded(SizeRule::Split, *old(scope), plan.jobs@, stats@, *final(scope)),
            r.wf(),
            file_set(r.writed_files@) == file_set(
                plan.jobs@.map_values(|j: PackWriteJob| j.path),
            ),
            file_set(r.removed_files@) == file_set(plan.removed_files@),
    {
        proof {
            lemma_jobs_fit(self.root@, self.temp_root@, *old(scope), plan.jobs@);
        }
        let written = record_pack_writes(SizeRule::Split, scope, &plan.jobs, &stats);
        let mut res = WriteScopeResult::empty();
        add_paths(&mut res.writed_files, written);
        add_paths(&mut res.removed_files, plan.removed_files);
        proof {
            assert(file_set(Seq::<String>::empty()) =~= Set::<Seq<char>>::empty());
        }
        res
    }

    /// The temporary path and the bytes of the meta file of a loaded scope,
    /// each pack recorded by name, hash and size, with the meta file as the
    /// written file; the error when the scope is not loaded or its meta lies
    /// outside the root.
    pub fn write_meta(&self, scope: &PackScope) -> (r: Result<
        (String, Vec<u8>, WriteScopeResult),
        StorageError,
    >)
        ensures
            !spec_scope_loaded(*scope) ==> r matches Err(StorageError::ScopeNotLoaded),
            spec_scope_loaded(*scope) ==> match spec_temp_path(
                self.root@,
                self.temp_root@,
                scope.meta->Value_0.path@,
            ) {
                Some(t) => r matches Ok((p, b, res)) && p@ == t && b@ == meta_file(
                    SizeRule::Split,
                    scope.meta->Value_0,
                ) && res.wf() && res.writed_files@.map_values(|f: String| f@) == seq![
                    scope.meta->Value_0.path@,
                ] && res.removed_files@.len() == 0,
                None => r matches Err(StorageError::RelativePath),
            },
    {
        if !scope.loaded() {
            return Err(StorageError::ScopeNotLoaded);
        }
        let meta = scope.meta.expect_value();
        let t = self.get_temp_path(&meta.path)?;
        let bytes = meta_file_bytes(SizeRule::Split, meta);
        let mut writed: Vec<String> = Vec::new();
        writed.push(meta.path.clone());
        proof {
            assert(writed@.map_values(|f: String| f@) =~= seq![meta.path@]);
        }
        Ok((t, bytes, WriteScopeResult { writed_files: writed, removed_files: Vec::new() }))
    }

    /// The meta read from the meta file at `path`, whose bytes are `file`:
    /// each pack with its name, hash and size.
    pub fn read_scope_meta(&self, path: &String, file: Option<Vec<u8>>) -> (r: Result<
        Option<ScopeMeta>,
        StorageError,
    >)
        ensures
            file is None ==> r matches Ok(None),
            file matches Some(d) ==> match spec_read_scope_meta(SizeRule::Split, d@) {
                Ok((b, mx, lm, entries)) => r matches Ok(Some(m)) && m.path@ == path@ && m.buckets
                    == b && m.max_pack_size == mx && m.last_modified == lm && meta_records(m.packs@)
                    == entries && forall|i: int, j: int|
                    0 <= i < m.packs@.len() && 0 <= j < m.packs@[i]@.len() ==> (#[trigger] m.packs@[i]@[j]).writed,
                Err(MetaFault::NotUtf8) => r matches Err(StorageError::Fs(e)) && e.file@ == path@
                    && e.opt == PackFsErrorOpt::Read && e.inner@ == invalid_utf8_message(),
                Err(MetaFault::BadNumber(f)) => r matches Err(StorageError::MetaParse(g)) && g == f,
                Err(MetaFault::TooFewOptions) => r matches Err(StorageError::MetaBroken),
                Err(MetaFault::BadPackInfo) => r matches Err(StorageError::PackInfo),
            },
    {
        read_scope_meta(SizeRule::Split, path, file)
    }

    /// Checks the meta of a scope against its options at time `now`.
    pub fn validate_meta_at(&self, scope: &PackScope, now: u64) -> (r: ValidateResult)
        requires
            scope.meta is Value,
            meta_checkable(
                scope.meta->Value_0,
                scope.options.buckets,
                scope.options.max_pack_size,
                now,
            ),
        ensures
            verdict_is(
                r,
                meta_verdict(
                    scope.meta->Value_0,
                    scope.options.buckets,
                    scope.options.max_pack_size,
                    scope.options.expires,
                    now,
                ),
            ),
    {
        let meta = scope.meta.expect_value();
        check_meta(
            meta,
            scope.options.buckets,
            scope.options.max_pack_size,
            scope.options.expires,
            now,
        )
    }

    /// Checks the meta of a scope against its options by the system clock.
    pub fn validate_meta(&self, scope: &PackScope) -> (r: Result<ValidateResult, StorageError>)
        requires
            scope.meta is Value,
        ensures
            r matches Ok(v) ==> exists|now: u64|
                meta_checkable(
                    scope.meta->Value_0,
                    scope.options.buckets,
                    scope.options.max_pack_size,
                    now,
                ) && #[trigger] verdict_is(
                    v,
                    meta_verdict(
                        scope.meta->Value_0,
                        scope.options.buckets,
                        scope.options.max_pack_size,
                        scope.options.expires,
                        now,
                    ),
                ),
            r is Err ==> r matches Err(StorageError::Clock),
    {
        let meta = scope.meta.expect_value();
        check_meta_now(
            meta,
            scope.options.buckets,
            scope.options.max_pack_size,
            scope.options.expires,
        )
    }

    /// The candidates that check each pack of a scope against its recorded
    /// hash, each found at the pack's own path.
    pub fn packs_to_validate(&self, scope: &PackScope) -> (r: Vec<ValidatingPack>)
        requires
            scope_shape_ok(*scope),
            forall|b: int, i: int|
                0 <= b < scope.packs->Value_0@.len() && 0 <= i < scope.packs->Value_0@[b]@.len()
                    ==> (#[trigger] scope.packs->Value_0@[b]@[i]).keys is Value,
        ensures
            r@.len() == positions(scope.meta->Value_0.packs@).len(),
            forall|j: int|
                0 <= j < r@.len() ==> #[trigger] candidate_for(
                    *scope,
                    positions(scope.meta->Value_0.packs@)[j],
                    candidate_path(*scope, positions(scope.meta->Value_0.packs@)[j], false),
                    r@[j],
                ),
    {
        packs_to_validate(scope, false)
    }

    /// The verdict on the packs: invalid when the file of a candidate cannot
    /// be read, as the file system reports it in `stats`; otherwise valid
    /// when the current hash of every file matches the recorded one.
    pub fn validate_packs(&self, candidates: &Vec<ValidatingPack>, stats: &Vec<Option<FileMeta>>) -> (r:
        ValidateResult)
        requires
            stats@.len() == candidates@.len(),
        ensures
            verdict_is(r, None) || verdict_is(r, Some(packs_invalid_message())),
            (exists|j: int| 0 <= j < stats@.len() && #[trigger] stats@[j] is None) ==> verdict_is(
                r,
                Some(packs_invalid_message()),
            ),
            verdict_is(r, None) ==> forall|j: int|
                0 <= j < candidates@.len() ==> (#[trigger] stats@[j]) is Some && is_hex_name(
                    candidates@[j].hash@,
                ),
    {
        packs_verdict(candidates, stats)
    }
}

} // verus!
