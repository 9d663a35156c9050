use vstd::prelude::*;

use crate::error::{StorageError, PackFsErrorOpt, invalid_utf8_message};
use crate::hash::{pack_hash, is_hex_name};
use crate::meta::ScopeMeta;
use crate::meta_file::{
    meta_file, meta_file_bytes, read_scope_meta, spec_read_scope_meta, meta_records, MetaFault,
};
use crate::model::{Item, items_view, byte_seqs};
use crate::pack::Pack;
use crate::meta::{PackFileMeta, clone_pack_file_meta};
use crate::scope_read::{same_pack, clone_pack};
use crate::scope_update::clone_update;
use crate::pack_file::{
    pack_file, pack_file_bytes, read_pack_keys, read_pack_contents, keys_header_ok,
    contents_header_ok, spec_read_pack_keys, spec_read_pack_contents,
};
use crate::packing::{
    SizeRule, create_packs, created_packs, pack_layout, value_len_sorted, lemma_legacy_no_stall,
};
use crate::paths::{spec_temp_path, temp_path};
use crate::storage::{FileMeta, PackStorageFs, PackStorageOptions};
use crate::text::{join_path, spec_join};
use crate::update::{
    Update, PackIncrementalResult, update_packs, update_outcome, updates_view, update_view,
    inserted_items, poured_items, removed_flags, update_keys, removal_pred,
};

verus! {

/// The first strategy: packs laid out by value length, buckets chosen by
/// hashing, and a meta file that records each pack's name and hash.
#[derive(Debug)]
pub struct PackStrategy {
    pub fs: PackStorageFs,
    pub root: String,
    pub temp_root: String,
}

/// The moves that bring written files from their temporary place to their
/// own: for each file, its temporary path and its path; the error of the
/// first file outside the root.
pub open spec fn spec_temp_moves(root: Seq<char>, temp_root: Seq<char>, files: Seq<String>) -> Option<
    Seq<(Seq<char>, Seq<char>)>,
>
    decreases files.len(),
{
    if files.len() == 0 {
        Some(Seq::empty())
    } else {
        match spec_temp_moves(root, temp_root, files.drop_last()) {
            None => None,
            Some(ms) => match spec_temp_path(root, temp_root, files.last()@) {
                None => None,
                Some(t) => Some(ms.push((t, files.last()@))),
            },
        }
    }
}

/// The moves for `files`, in order, or the error of a file outside `root`.
pub fn temp_moves(root: &String, temp_root: &String, files: &Vec<String>) -> (r: Result<
    Vec<(String, String)>,
    StorageError,
>)
    ensures
        match spec_temp_moves(root@, temp_root@, files@) {
            Some(ms) => r matches Ok(v) && v@.map_values(|m: (String, String)| (m.0@, m.1@))
                == ms,
            None => r matches Err(StorageError::RelativePath),
        },
{
    let mut out: Vec<(String, String)> = Vec::new();
    let mut i: usize = 0;
    while i < files.len()
        invariant
            i <= files@.len(),
            spec_temp_moves(root@, temp_root@, files@.take(i as int)) == Some(
                out@.map_values(|m: (String, String)| (m.0@, m.1@)),
            ),
        decreases files@.len() - i,
    {
        proof {
            assert(files@.take(i + 1).drop_last() =~= files@.take(i as int));
            assert(files@.take(i + 1).last() == files@[i as int]);
        }
        match temp_path(root, temp_root, &files[i]) {
            Ok(t) => {
                let ghost o0 = out@.map_values(|m: (String, String)| (m.0@, m.1@));
                out.push((t, files[i].clone()));
                proof {
                    assert(out@.map_values(|m: (String, String)| (m.0@, m.1@)) =~= o0.push(
                        (t@, files@[i as int]@),
                    ));
                }
            },
            Err(e) => {
                proof {
                    lemma_temp_moves_none(root@, temp_root@, files@, i as int + 1);
                }
                return Err(e);
            },
        }
        i = i + 1;
    }
    proof {
        assert(files@.take(i as int) =~= files@);
    }
    Ok(out)
}

proof fn lemma_temp_moves_none(root: Seq<char>, temp_root: Seq<char>, files: Seq<String>, k: int)
    requires
        0 <= k <= files.len(),
        spec_temp_moves(root, temp_root, files.take(k)) is None,
    ensures
        spec_temp_moves(root, temp_root, files) is None,
    decreases files.len() - k,
{
    if k < files.len() {
        assert(files.take(k + 1).drop_last() =~= files.take(k));
        lemma_temp_moves_none(root, temp_root, files, k + 1);
    } else {
        assert(files.take(k) =~= files);
    }
}

impl PackStrategy {
    pub fn new(root: String, temp_root: String, fs: PackStorageFs) -> (r: PackStrategy)
        ensures
            r.root == root,
            r.temp_root == temp_root,
    {
        PackStrategy { fs, root, temp_root }
    }

    /// The path of `sub` below the root.
    pub fn get_path(&self, sub: &String) -> (r: String)
        ensures
            r@ == spec_join(self.root@, sub@),
    {
        join_path(&self.root, sub)
    }

    /// Where `path` is written before the save moves it in place.
    pub fn get_temp_path(&self, path: &String) -> (r: Result<String, StorageError>)
        ensures
            match spec_temp_path(self.root@, self.temp_root@, path@) {
                Some(t) => r matches Ok(s) && s@ == t,
                None => r matches Err(StorageError::RelativePath),
            },
    {
        temp_path(&self.root, &self.temp_root, path)
    }

    /// The temporary and final paths of written files, for moving them in
    /// place after a save.
    pub fn temp_file_moves(&self, files: &Vec<String>) -> (r: Result<
        Vec<(String, String)>,
        StorageError,
    >)
        ensures
            match spec_temp_moves(self.root@, self.temp_root@, files@) {
                Some(ms) => r matches Ok(v) && v@.map_values(|m: (String, String)| (m.0@, m.1@))
                    == ms,
                None => r matches Err(StorageError::RelativePath),
            },
    {
        temp_moves(&self.root, &self.temp_root, files)
    }

    /// The hash of a written pack: its name, then the size and modification
    /// time of its file.
    pub fn get_hash(&self, keys: &Vec<Vec<u8>>, contents: &Vec<Vec<u8>>, meta: &FileMeta) -> (r:
        String)
        ensures
            is_hex_name(r@),
    {
        pack_hash(keys, contents, meta.size, meta.mtime)
    }

    /// Lays `items` out in new packs in `dir`, values up to half the maximal
    /// size packed together, longest first.
    pub fn create(&self, dir: &String, options: &PackStorageOptions, items: Vec<Item>) -> (out: Vec<
        (PackFileMeta, Pack),
    >)
        ensures
            exists|p: Seq<(Seq<u8>, Seq<u8>)>|
                {
                    &&& value_len_sorted(p)
                    &&& p.to_multiset() == items_view(items@).to_multiset()
                    &&& created_packs(
                        out@,
                        dir@,
                        #[trigger] pack_layout(SizeRule::Legacy, p, options.max_pack_size as int),
                        SizeRule::Legacy,
                    )
                },
    {
        proof {
            lemma_legacy_no_stall(items_view(items@), options.max_pack_size as int);
        }
        create_packs(dir, options.max_pack_size, items, SizeRule::Legacy)
    }

    /// Applies the updates of one bucket to its packs: packs that hold an
    /// updated key are removed and their other items are laid out anew with
    /// the set items. Afterwards `packs` holds the kept packs and `updates`
    /// the removals, as the returned parts say.
    pub fn incremental(
        &self,
        dir: String,
        options: &PackStorageOptions,
        packs: &mut Vec<(PackFileMeta, Pack)>,
        updates: &mut Vec<Update>,
    ) -> (r: PackIncrementalResult)
        requires
            update_keys(updates_view(old(updates)@)).no_duplicates(),
        ensures
            update_outcome(
                SizeRule::Legacy,
                dir@,
                options.max_pack_size as int,
                old(packs)@,
                updates_view(old(updates)@),
                r.remain_packs@,
                r.new_packs@,
                r.removed_files@,
            ),
            final(packs)@.len() == r.remain_packs@.len(),
            forall|i: int|
                0 <= i < r.remain_packs@.len() ==> (#[trigger] final(packs)@[i]).0 == r.remain_packs@[i].0
                    && same_pack(final(packs)@[i].1, r.remain_packs@[i].1),
            updates_view(final(updates)@) == updates_view(old(updates)@).filter(removal_pred()),
    {
        let ghost u0 = updates_view(updates@);
        let mut taken: Vec<(PackFileMeta, Pack)> = Vec::new();
        std::mem::swap(packs, &mut taken);
        let mut given: Vec<Update> = Vec::new();
        let mut kept: Vec<Update> = Vec::new();
        let mut i: usize = 0;
        proof {
            assert(u0.take(0).filter(removal_pred()) =~= Seq::<(Seq<u8>, Option<Seq<u8>>)>::empty());
        }
        while i < updates.len()
            invariant
                u0 == updates_view(updates@),
                i <= updates@.len(),
                updates_view(given@) == u0.take(i as int),
                updates_view(kept@) == u0.take(i as int).filter(removal_pred()),
            decreases updates@.len() - i,
        {
            proof {
                assert(u0.take(i + 1) =~= u0.take(i as int).push(u0[i as int]));
                u0.take(i as int).lemma_filter_push(u0[i as int], removal_pred());
                assert(u0[i as int] == update_view(updates@[i as int]));
            }
            let c = clone_update(&updates[i]);
            let ghost g0 = updates_view(given@);
            given.push(c);
            proof {
                assert(updates_view(given@) =~= g0.push(update_view(c)));
            }
            if updates[i].1.is_none() {
                let d = clone_update(&updates[i]);
                let ghost k0 = updates_view(kept@);
                kept.push(d);
                proof {
                    assert(updates_view(kept@) =~= k0.push(update_view(d)));
                }
            }
            i = i + 1;
        }
        proof {
            assert(u0.take(i as int) =~= u0);
            lemma_legacy_no_stall(
                poured_items(
                    taken@,
                    removed_flags(SizeRule::Legacy, taken@, u0, options.max_pack_size as int),
                    update_keys(u0),
                ) + inserted_items(u0),
                options.max_pack_size as int,
            );
        }
        let r = update_packs(&dir, options.max_pack_size, SizeRule::Legacy, taken, given);
        let mut j: usize = 0;
        while j < r.remain_packs.len()
            invariant
                j <= r.remain_packs@.len(),
                packs@.len() == j,
                forall|k: int|
                    0 <= k < j ==> (#[trigger] packs@[k]).0 == r.remain_packs@[k].0 && same_pack(
                        packs@[k].1,
                        r.remain_packs@[k].1,
                    ),
            decreases r.remain_packs@.len() - j,
        {
            let e = &r.remain_packs[j];
            packs.push((clone_pack_file_meta(&e.0), clone_pack(&e.1)));
            j = j + 1;
        }
        *updates = kept;
        r
    }

    /// The temporary path and the bytes of the pack file for `keys` and
    /// `contents` at `path`.
    pub fn write(&self, path: &String, keys: &Vec<Vec<u8>>, contents: &Vec<Vec<u8>>) -> (r: Result<
        (String, Vec<u8>),
        StorageError,
    >)
        ensures
            match spec_temp_path(self.root@, self.temp_root@, path@) {
                Some(t) => r matches Ok((p, b)) && p@ == t && b@ == pack_file(
                    byte_seqs(keys@),
                    byte_seqs(contents@),
                ),
                None => r matches Err(StorageError::RelativePath),
            },
    {
        let t = self.get_temp_path(path)?;
        Ok((t, pack_file_bytes(keys, contents)))
    }

    /// The keys of the pack file at `path`, whose bytes are `file`.
    pub fn read_keys(&self, path: &String, file: Option<Vec<u8>>) -> (r: Result<
        Option<Vec<Vec<u8>>>,
        StorageError,
    >)
        requires
            file matches Some(d) ==> keys_header_ok(d@),
        ensures
            file is None ==> r matches Ok(None),
            file matches Some(d) ==> match spec_read_pack_keys(d@) {
                Ok(ks) => r matches Ok(Some(v)) && byte_seqs(v@) == ks,
                Err(m) => r matches Err(StorageError::Fs(e)) && e.file@ == path@ && e.opt
                    == PackFsErrorOpt::Read && e.inner@ == m,
            },
    {
        read_pack_keys(path, file)
    }

    /// The values of the pack file at `path`, whose bytes are `file`.
    pub fn read_contents(&self, path: &String, file: Option<Vec<u8>>) -> (r: Result<
        Option<Vec<Vec<u8>>>,
        StorageError,
    >)
        requires
            file matches Some(d) ==> contents_header_ok(d@),
        ensures
            file is None ==> r matches Ok(None),
            file matches Some(d) ==> match spec_read_pack_contents(d@) {
                Ok(cs) => r matches Ok(Some(v)) && byte_seqs(v@) == cs,
                Err(m) => r matches Err(StorageError::Fs(e)) && e.file@ == path@ && e.opt
                    == PackFsErrorOpt::Read && e.inner@ == m,
            },
    {
        read_pack_contents(path, file)
    }

    /// The temporary path and the bytes of the meta file of `meta`, each pack
    /// recorded by name and hash.
    pub fn write_scope_meta(&self, meta: &ScopeMeta) -> (r: Result<(String, Vec<u8>), StorageError>)
        ensures
            match spec_temp_path(self.root@, self.temp_root@, meta.path@) {
                Some(t) => r matches Ok((p, b)) && p@ == t && b@ == meta_file(
                    SizeRule::Legacy,
                    *meta,
                ),
                None => r matches Err(StorageError::RelativePath),
            },
    {
        let t = self.get_temp_path(&meta.path)?;
        Ok((t, meta_file_bytes(SizeRule::Legacy, meta)))
    }

    /// The meta read from the meta file at `path`, whose bytes are `file`;
    /// the first layout records no sizes, so each pack reads with size 0.
    pub fn read_scope_meta(&self, path: &String, file: Option<Vec<u8>>) -> (r: Result<
        Option<ScopeMeta>,
        StorageError,
    >)
        ensures
            file is None ==> r matches Ok(None),
            file matches Some(d) ==> match spec_read_scope_meta(SizeRule::Legacy, d@) {
                Ok((b, mx, lm, entries)) => r matches Ok(Some(m)) && m.path@ == path@ && m.buckets
                    == b && m.max_pack_size == mx && m.last_modified == lm && meta_records(m.packs@)
                    == entries && forall|i: int, j: int|
                    0 <= i < m.packs@.len() && 0 <= j < m.packs@[i]@.len() ==> (#[trigger] m.packs@[i]@[j]).writed,
                Err(MetaFault::NotUtf8) => r matches Err(StorageError::Fs(e)) && e.file@ == path@
                    && e.opt == PackFsErrorOpt::Read && e.inner@ == invalid_utf8_message(),
                Err(MetaFault::BadNumber(f)) => r matches Err(StorageError::MetaParse(g)) && g == f,
                Err(MetaFault::TooFewOptions) => r matches Err(StorageError::MetaBroken),
                Err(MetaFault::BadPackInfo) => r matches Err(StorageError::PackInfo),
            },
    {
        read_scope_meta(SizeRule::Legacy, path, file)
    }
}

} // verus!
