use vstd::prelude::*;

use crate::hash::choose_hashed_bucket;
use crate::packing::SizeRule;

verus! {

/// The sum of the bytes of a key.
pub open spec fn byte_sum(s: Seq<u8>) -> nat
    decreases s.len(),
{
    if s.len() == 0 {
        0
    } else {
        byte_sum(s.drop_last()) + s.last() as nat
    }
}

/// The bucket of `key` among `total` buckets: the sum of its bytes, modulo the
/// number of buckets.
pub open spec fn spec_choose_bucket(key: Seq<u8>, total: usize) -> int {
    (byte_sum(key) as int) % (total as int)
}

/// Chooses the bucket of a key by the sum of its bytes.
pub fn choose_bucket(key: &Vec<u8>, total: usize) -> (b: usize)
    requires
        total > 0,
        byte_sum(key@) <= usize::MAX,
    ensures
        b == spec_choose_bucket(key@, total),
        b < total,
{
    let mut acc: usize = 0;
    let mut i: usize = 0;
    while i < key.len()
        invariant
            i <= key@.len(),
            acc == byte_sum(key@.take(i as int)),
            byte_sum(key@) <= usize::MAX,
        decreases key@.len() - i,
    {
        proof {
            assert(key@.take(i + 1).drop_last() =~= key@.take(i as int));
            lemma_byte_sum_prefix(key@, i + 1);
        }
        acc = acc + key[i] as usize;
        i = i + 1;
    }
    proof {
        assert(key@.take(i as int) =~= key@);
    }
    acc % total
}

pub proof fn lemma_byte_sum_prefix(s: Seq<u8>, n: int)
    requires
        0 <= n <= s.len(),
    ensures
        byte_sum(s.take(n)) <= byte_sum(s),
    decreases s.len() - n,
{
    if n < s.len() {
        lemma_byte_sum_prefix(s, n + 1);
        assert(s.take(n + 1).drop_last() =~= s.take(n));
    } else {
        assert(s.take(n) =~= s);
    }
}

/// Where keys go: `place(key)` is the bucket of `key`, among `total`.
pub open spec fn place_ok(place: spec_fn(Seq<u8>) -> int, total: int) -> bool {
    forall|k: Seq<u8>| 0 <= #[trigger] place(k) < total
}

/// The placement of the split strategy: the sum of the bytes of a key,
/// modulo the number of buckets.
pub open spec fn split_place(total: usize) -> spec_fn(Seq<u8>) -> int {
    |k: Seq<u8>| spec_choose_bucket(k, total)
}

/// The split placement puts every key into one of the buckets.
pub proof fn lemma_bucket_range(total: usize)
    requires
        total > 0,
    ensures
        place_ok(split_place(total), total as int),
{
}

/// Whether the bucket of a key can be computed without overflow.
pub open spec fn bucket_computable(rule: SizeRule, key: Seq<u8>) -> bool {
    rule is Split ==> byte_sum(key) <= usize::MAX
}

/// The bucket of a key under a rule: the split strategy sums the bytes of the
/// key, the first strategy hashes it, and then only the range is known.
pub fn bucket_for(rule: SizeRule, key: &Vec<u8>, total: usize) -> (b: usize)
    requires
        total > 0,
        bucket_computable(rule, key@),
    ensures
        b < total,
        rule is Split ==> b == spec_choose_bucket(key@, total),
{
    match rule {
        SizeRule::Legacy => choose_hashed_bucket(key, total),
        SizeRule::Split => choose_bucket(key, total),
    }
}

} // verus!
