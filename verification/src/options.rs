use vstd::prelude::*;

verus! {

/// The options a scope is stored with.
#[derive(Debug, Clone, Copy)]
pub struct PackOptions {
    /// Number of buckets the keys are spread over.
    pub buckets: usize,
    /// The size a pack aims not to exceed, in bytes of keys and values.
    pub max_pack_size: usize,
    /// Seconds after which a stored scope is no longer trusted.
    pub expires: u64,
}

} // verus!
