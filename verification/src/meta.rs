use vstd::prelude::*;
use vstd::string::StringExecFns;

use crate::options::PackOptions;
use crate::text::{join_path, spec_join};

verus! {

/// What the scope meta file records of one pack.
#[derive(Debug)]
pub struct PackFileMeta {
    /// Digest of the written pack file; empty until the pack is written.
    pub hash: String,
    /// File name of the pack inside its bucket directory.
    pub name: String,
    /// Bytes of keys and values the pack holds.
    pub size: usize,
    /// Whether the pack file has been written.
    pub writed: bool,
}

/// A copy of a pack's record.
pub fn clone_pack_file_meta(m: &PackFileMeta) -> (r: PackFileMeta)
    ensures
        r == *m,
{
    PackFileMeta { hash: m.hash.clone(), name: m.name.clone(), size: m.size, writed: m.writed }
}

/// What the scope meta file records: the options the scope was written with,
/// when it was written, and the packs of each bucket.
#[derive(Debug)]
pub struct ScopeMeta {
    pub path: String,
    pub buckets: usize,
    pub max_pack_size: usize,
    pub last_modified: u64,
    pub packs: Vec<Vec<PackFileMeta>>,
}

impl Default for ScopeMeta {
    fn default() -> (r: Self)
        ensures
            r.path@ == Seq::<char>::empty(),
            r.buckets == 0,
            r.max_pack_size == 0,
            r.last_modified == 0,
            r.packs@ == Seq::<Vec<PackFileMeta>>::empty(),
    {
        ScopeMeta {
            path: String::new(),
            buckets: 0,
            max_pack_size: 0,
            last_modified: 0,
            packs: Vec::new(),
        }
    }
}

/// The name of the scope meta file inside the scope directory.
pub open spec fn meta_file_name() -> Seq<char> {
    seq!['c', 'a', 'c', 'h', 'e', '_', 'm', 'e', 't', 'a']
}

#[verifier::external_type_specification]
#[verifier::external_body]
pub struct ExSystemTime(std::time::SystemTime);

#[verifier::external_type_specification]
#[verifier::external_body]
pub struct ExSystemTimeError(std::time::SystemTimeError);

/// `SystemTime::now()`: the time of the system clock; nothing is known of it.
#[verifier::external_body]
fn system_time_now() -> std::time::SystemTime {
    std::time::SystemTime::now()
}

/// `SystemTime::duration_since(UNIX_EPOCH)`: how long after the Unix epoch
/// `t` lies, or an error when it lies before; nothing more is stated.
#[verifier::external_body]
fn since_unix_epoch(t: &std::time::SystemTime) -> std::result::Result<
    std::time::Duration,
    std::time::SystemTimeError,
> {
    t.duration_since(std::time::UNIX_EPOCH)
}

/// `Duration::as_secs`: the whole seconds of a duration; nothing is stated of
/// the value.
#[verifier::external_body]
fn duration_as_secs(d: &std::time::Duration) -> u64 {
    d.as_secs()
}

/// Seconds since the Unix epoch by the system clock, or `None` when the clock
/// stands before the epoch.
pub fn current_secs() -> Option<u64> {
    let now = system_time_now();
    match since_unix_epoch(&now) {
        Ok(d) => Some(duration_as_secs(&d)),
        Err(_) => None,
    }
}

impl ScopeMeta {
    /// The path of the meta file of the scope in `dir`.
    pub fn get_path(dir: &String) -> (r: String)
        ensures
            r@ == spec_join(dir@, meta_file_name()),
    {
        let name = "cache_meta";
        proof {
            reveal_strlit("cache_meta");
        }
        let name = String::from_str(name);
        proof {
            assert(name@ =~= meta_file_name());
        }
        join_path(dir, &name)
    }

    /// The meta of an empty scope in `dir`, written at `now`: one empty list
    /// of packs per bucket.
    pub fn new_at(dir: &String, options: &PackOptions, now: u64) -> (r: ScopeMeta)
        ensures
            r.path@ == spec_join(dir@, meta_file_name()),
            r.buckets == options.buckets,
            r.max_pack_size == options.max_pack_size,
            r.last_modified == now,
            r.packs@.len() == options.buckets,
            forall|b: int| 0 <= b < r.packs@.len() ==> (#[trigger] r.packs@[b])@.len() == 0,
    {
        let mut packs: Vec<Vec<PackFileMeta>> = Vec::new();
        let mut b: usize = 0;
        while b < options.buckets
            invariant
                b <= options.buckets,
                packs@.len() == b,
                forall|k: int| 0 <= k < b ==> (#[trigger] packs@[k])@.len() == 0,
            decreases options.buckets - b,
        {
            packs.push(Vec::new());
            b = b + 1;
        }
        ScopeMeta {
            path: Self::get_path(dir),
            buckets: options.buckets,
            max_pack_size: options.max_pack_size,
            last_modified: now,
            packs,
        }
    }

    /// The meta of an empty scope in `dir`, written now; `None` when the
    /// system clock stands before the Unix epoch.
    pub fn new(dir: &String, options: &PackOptions) -> (r: Option<ScopeMeta>)
        ensures
            r matches Some(m) ==> {
                &&& m.path@ == spec_join(dir@, meta_file_name())
                &&& m.buckets == options.buckets
                &&& m.max_pack_size == options.max_pack_size
                &&& m.packs@.len() == options.buckets
                &&& forall|b: int| 0 <= b < m.packs@.len() ==> (#[trigger] m.packs@[b])@.len() == 0
            },
    {
        match current_secs() {
            Some(now) => Some(Self::new_at(dir, options, now)),
            None => None,
        }
    }
}

} // verus!
