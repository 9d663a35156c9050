use vstd::prelude::*;

verus! {

/// The file system handle of the first strategy; it holds nothing.
#[derive(Debug, Clone, Copy)]
pub struct PackStorageFs {}

impl PackStorageFs {
    pub fn new() -> (r: PackStorageFs) {
        PackStorageFs {  }
    }
}

/// The file system of the machine; its operations are performed by the
/// caller of the library.
#[derive(Debug, Clone, Copy, Default)]
pub struct PackNativeFileSystem;

/// What the file system reports of a file: its size in bytes and its
/// modification time.
#[derive(Debug, Clone, Copy, PartialEq, Eq)]
pub struct FileMeta {
    pub size: u64,
    pub mtime: i64,
}

/// Which file system a storage keeps its files in.
#[derive(Debug, Clone, Copy, PartialEq, Eq)]
pub enum PackFsType {
    Memory,
    Native,
}

/// How a storage is set up: where its files go, in which file system, and
/// the options of its scopes.
#[derive(Debug)]
pub struct PackStorageOptions {
    pub root: String,
    pub temp_root: String,
    pub fs: PackFsType,
    pub buckets: usize,
    pub max_pack_size: usize,
    pub expires: u64,
}

/// The files as a set of paths.
pub open spec fn file_set(v: Seq<String>) -> Set<Seq<char>> {
    v.map_values(|s: String| s@).to_set()
}

/// No path occurs twice.
pub open spec fn files_distinct(v: Seq<String>) -> bool {
    v.map_values(|s: String| s@).no_duplicates()
}

/// Whether `v` holds a path equal to `f`.
pub fn holds_path(v: &Vec<String>, f: &String) -> (r: bool)
    ensures
        r == file_set(v@).contains(f@),
{
    let mut i: usize = 0;
    while i < v.len()
        invariant
            i <= v@.len(),
            forall|k: int| 0 <= k < i ==> v@[k]@ != f@,
        decreases v@.len() - i,
    {
        if v[i] == *f {
            proof {
                assert(v@.map_values(|s: String| s@)[i as int] == f@);
            }
            return true;
        }
        i = i + 1;
    }
    proof {
        let w = v@.map_values(|s: String| s@);
        if file_set(v@).contains(f@) {
            assert(w.contains(f@));
            let k = choose|k: int| 0 <= k < w.len() && #[trigger] w[k] == f@;
            assert(v@[k]@ == f@);
        }
    }
    false
}

/// Adds the paths of `add` that `v` does not hold yet, as inserting into a set
/// does.
pub fn add_paths(v: &mut Vec<String>, add: Vec<String>)
    requires
        files_distinct(old(v)@),
    ensures
        files_distinct(final(v)@),
        file_set(final(v)@) == file_set(old(v)@) + file_set(add@),
{
    let ghost v0 = v@;
    let mut i: usize = 0;
    while i < add.len()
        invariant
            i <= add@.len(),
            files_distinct(v@),
            file_set(v@) == file_set(v0) + file_set(add@.take(i as int)),
        decreases add@.len() - i,
    {
        let f = add[i].clone();
        let ghost before = v@;
        proof {
            assert(add@.take(i + 1) =~= add@.take(i as int).push(add@[i as int]));
            assert(add@.take(i + 1).map_values(|s: String| s@) =~= add@.take(i as int).map_values(
                |s: String| s@,
            ).push(f@));
            assert(file_set(add@.take(i + 1)) =~= file_set(add@.take(i as int)).insert(f@)) by {
                broadcast use vstd::seq_lib::group_seq_properties;

            }
        }
        if !holds_path(v, &f) {
            v.push(f);
            proof {
                assert(v@.map_values(|s: String| s@) =~= before.map_values(|s: String| s@).push(
                    f@,
                ));
                assert(file_set(v@) =~= file_set(before).insert(f@)) by {
                    broadcast use vstd::seq_lib::group_seq_properties;

                }
                assert(files_distinct(v@)) by {
                    let w = before.map_values(|s: String| s@);
                    assert forall|a: int, b: int|
                        0 <= a < b < w.push(f@).len() implies w.push(f@)[a] != w.push(f@)[b] by {
                        if b == w.len() {
                            assert(w[a] == w.push(f@)[a]);
                            assert(w.contains(w[a]));
                        }
                    }
                }
            }
        } else {
            proof {
                assert(file_set(v@) =~= file_set(v@).insert(f@));
            }
        }
        i = i + 1;
    }
    proof {
        assert(add@.take(i as int) =~= add@);
    }
}

/// The files a save writes and removes, each named once.
#[derive(Debug)]
pub struct WriteScopeResult {
    pub writed_files: Vec<String>,
    pub removed_files: Vec<String>,
}

impl WriteScopeResult {
    /// No file is written or removed twice.
    pub open spec fn wf(&self) -> bool {
        files_distinct(self.writed_files@) && files_distinct(self.removed_files@)
    }

    /// A result that writes and removes nothing.
    pub fn empty() -> (r: WriteScopeResult)
        ensures
            r.wf(),
            r.writed_files@.len() == 0,
            r.removed_files@.len() == 0,
    {
        WriteScopeResult { writed_files: Vec::new(), removed_files: Vec::new() }
    }

    /// Adds the files of `other`: the written and the removed files are the
    /// unions of both.
    pub fn extend(&mut self, other: WriteScopeResult)
        requires
            old(self).wf(),
        ensures
            final(self).wf(),
            file_set(final(self).writed_files@) == file_set(old(self).writed_files@) + file_set(
                other.writed_files@,
            ),
            file_set(final(self).removed_files@) == file_set(old(self).removed_files@) + file_set(
                other.removed_files@,
            ),
    {
        add_paths(&mut self.writed_files, other.writed_files);
        add_paths(&mut self.removed_files, other.removed_files);
    }
}

/// The files a save of the first strategy writes and removes.
pub type ScopeSaveResult = WriteScopeResult;

} // verus!
