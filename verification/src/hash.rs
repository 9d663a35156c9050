use rustc_hash::FxHasher;
use std::hash::Hasher;
use vstd::prelude::*;

use crate::text::{ascii_chars, hex16, hex16_bytes};

verus! {

#[verifier::external_type_specification]
#[verifier::external_body]
pub struct ExFxHasher(FxHasher);

/// `FxHasher::default()`: a fresh hasher. Nothing is stated of its state:
/// the digests an `FxHasher` gives differ between 32- and 64-bit machines.
#[verifier::external_body]
fn fx_new() -> FxHasher {
    FxHasher::default()
}

/// `Hasher::write` on an `FxHasher`: feeds one byte string. Nothing is stated
/// of the state it leaves.
#[verifier::external_body]
fn fx_write(h: &mut FxHasher, bytes: &[u8]) {
    h.write(bytes)
}

/// `Hasher::write_usize` on an `FxHasher`: feeds one `usize`. Nothing is
/// stated of the state it leaves.
#[verifier::external_body]
fn fx_write_usize(h: &mut FxHasher, n: usize) {
    h.write_usize(n)
}

/// `Hasher::write_u64` on an `FxHasher`: feeds one `u64`. Nothing is stated
/// of the state it leaves.
#[verifier::external_body]
fn fx_write_u64(h: &mut FxHasher, n: u64) {
    h.write_u64(n)
}

/// `Hasher::write_i64` on an `FxHasher`: feeds one `i64`. Nothing is stated
/// of the state it leaves.
#[verifier::external_body]
fn fx_write_i64(h: &mut FxHasher, n: i64) {
    h.write_i64(n)
}

/// `Hasher::finish` on an `FxHasher`: the digest of what was fed. Nothing is
/// stated of its value.
#[verifier::external_body]
fn fx_finish(h: &FxHasher) -> u64 {
    h.finish()
}

/// The text of a digest: sixteen lower-case hexadecimal digits.
pub open spec fn hex_text(d: u64) -> Seq<char> {
    ascii_chars(hex16_bytes(d))
}

/// Whether a text is the hexadecimal text of some digest.
pub open spec fn is_hex_name(s: Seq<char>) -> bool {
    exists|d: u64| s == #[trigger] hex_text(d)
}

/// The name of a pack file, or the hash of a pack, from its digest.
pub fn digest_text(d: u64) -> (s: String)
    ensures
        s@ == hex_text(d),
{
    hex16(d)
}

/// The digest of the keys of a pack: each key, then the number of keys.
fn keys_digest(keys: &Vec<Vec<u8>>) -> u64 {
    let n = keys.len();
    let mut h = fx_new();
    let mut i: usize = 0;
    while i < keys.len()
        invariant
            i <= keys@.len(),
        decreases keys@.len() - i,
    {
        fx_write(&mut h, keys[i].as_slice());
        i = i + 1;
    }
    fx_write_usize(&mut h, n);
    fx_finish(&h)
}

/// The name of the pack file that holds `keys`: the hexadecimal text of the
/// digest of the keys and their number; the contents do not take part.
pub fn get_name(keys: &Vec<Vec<u8>>, contents: &Vec<Vec<u8>>) -> (name: String)
    ensures
        is_hex_name(name@),
{
    let d = keys_digest(keys);
    let name = digest_text(d);
    proof {
        assert(name@ == hex_text(d));
    }
    name
}

/// The bucket of a digest among `total` buckets.
pub fn bucket_of_digest(d: u64, total: usize) -> (b: usize)
    requires
        total > 0,
    ensures
        b == (d as int) % (total as int),
        b < total,
{
    (d % (total as u64)) as usize
}

/// Chooses the bucket of a key by hashing it: the digest of the key, modulo
/// the number of buckets.
pub fn choose_hashed_bucket(key: &Vec<u8>, total: usize) -> (b: usize)
    requires
        total > 0,
    ensures
        b < total,
{
    let mut h = fx_new();
    fx_write(&mut h, key.as_slice());
    let d = fx_finish(&h);
    bucket_of_digest(d, total)
}

/// The hash of a written pack: the hexadecimal text of the digest of its
/// name, then the size and the modification time of its file.
pub fn pack_hash(keys: &Vec<Vec<u8>>, contents: &Vec<Vec<u8>>, size: u64, mtime: i64) -> (hash:
    String)
    ensures
        is_hex_name(hash@),
{
    let name = get_name(keys, contents);
    let mut h = fx_new();
    fx_write(&mut h, name.as_str().as_bytes());
    fx_write_u64(&mut h, size);
    fx_write_i64(&mut h, mtime);
    let d = fx_finish(&h);
    let hash = digest_text(d);
    proof {
        assert(hash@ == hex_text(d));
    }
    hash
}

} // verus!
