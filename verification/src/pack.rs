use vstd::prelude::*;

use crate::model::{byte_seqs, total_len, lemma_total_len_push, lemma_total_len_nonneg};

verus! {

/// The keys of a pack, in order.
pub type PackKeys = Vec<Vec<u8>>;

/// The values of a pack, in the order of its keys.
pub type PackContents = Vec<Vec<u8>>;

/// The keys of a pack: not read yet, or read.
#[derive(Debug)]
pub enum PackKeysState {
    Pending,
    Value(PackKeys),
}

impl Default for PackKeysState {
    fn default() -> (r: Self)
        ensures
            r is Pending,
    {
        PackKeysState::Pending
    }
}

impl PackKeysState {
    /// The keys, which must have been read.
    pub fn expect_value(&self) -> (r: &PackKeys)
        requires
            self is Value,
        ensures
            *r == self->Value_0,
    {
        match self {
            PackKeysState::Value(v) => v,
            PackKeysState::Pending => {
                assert(false);
                unreached()
            },
        }
    }
}

/// The values of a pack: not read yet, or read.
#[derive(Debug)]
pub enum PackContentsState {
    Pending,
    Value(PackContents),
}

impl Default for PackContentsState {
    fn default() -> (r: Self)
        ensures
            r is Pending,
    {
        PackContentsState::Pending
    }
}

impl PackContentsState {
    /// The values, which must have been read.
    pub fn expect_value(&self) -> (r: &PackContents)
        requires
            self is Value,
        ensures
            *r == self->Value_0,
    {
        match self {
            PackContentsState::Value(v) => v,
            PackContentsState::Pending => {
                assert(false);
                unreached()
            },
        }
    }
}

/// One pack file: where it lies and, once read, its keys and values.
#[derive(Debug)]
pub struct Pack {
    pub path: String,
    pub keys: PackKeysState,
    pub contents: PackContentsState,
}

/// The keys of a pack as byte strings, or nothing while they are pending.
pub open spec fn pack_keys(p: Pack) -> Seq<Seq<u8>> {
    match p.keys {
        PackKeysState::Value(k) => byte_seqs(k@),
        PackKeysState::Pending => Seq::empty(),
    }
}

/// The values of a pack as byte strings, or nothing while they are pending.
pub open spec fn pack_contents(p: Pack) -> Seq<Seq<u8>> {
    match p.contents {
        PackContentsState::Value(c) => byte_seqs(c@),
        PackContentsState::Pending => Seq::empty(),
    }
}

/// The items a pack holds: its keys paired with its values, when both are read
/// and their numbers agree; nothing otherwise.
pub open spec fn pack_items(p: Pack) -> Seq<(Seq<u8>, Seq<u8>)> {
    if p.keys is Value && p.contents is Value && pack_keys(p).len() == pack_contents(p).len() {
        Seq::new(pack_keys(p).len(), |i: int| (pack_keys(p)[i], pack_contents(p)[i]))
    } else {
        Seq::empty()
    }
}

/// The size of a pack: the bytes of its keys and of its values.
pub open spec fn spec_pack_size(p: Pack) -> int {
    total_len(pack_keys(p)) + total_len(pack_contents(p))
}

pub open spec fn spec_pack_loaded(p: Pack) -> bool {
    p.keys is Value && p.contents is Value
}

fn sum_lens(v: &Vec<Vec<u8>>) -> (r: usize)
    requires
        total_len(byte_seqs(v@)) <= usize::MAX,
    ensures
        r == total_len(byte_seqs(v@)),
{
    let mut acc: usize = 0;
    let mut i: usize = 0;
    while i < v.len()
        invariant
            i <= v@.len(),
            acc == total_len(byte_seqs(v@).take(i as int)),
            total_len(byte_seqs(v@)) <= usize::MAX,
        decreases v@.len() - i,
    {
        proof {
            assert(byte_seqs(v@).take(i + 1) =~= byte_seqs(v@).take(i as int).push(v@[i as int]@));
            lemma_total_len_push(byte_seqs(v@).take(i as int), v@[i as int]@);
            lemma_total_len_prefix(byte_seqs(v@), i + 1);
        }
        acc = acc + v[i].len();
        i = i + 1;
    }
    proof {
        assert(byte_seqs(v@).take(i as int) =~= byte_seqs(v@));
    }
    acc
}

pub proof fn lemma_total_len_prefix(s: Seq<Seq<u8>>, n: int)
    requires
        0 <= n <= s.len(),
    ensures
        total_len(s.take(n)) <= total_len(s),
    decreases s.len() - n,
{
    if n < s.len() {
        lemma_total_len_prefix(s, n + 1);
        assert(s.take(n + 1) =~= s.take(n).push(s[n]));
        lemma_total_len_push(s.take(n), s[n]);
    } else {
        assert(s.take(n) =~= s);
    }
}

impl Pack {
    /// A pack at `path` whose keys and values are not read yet.
    pub fn new(path: String) -> (r: Pack)
        ensures
            r.path == path,
            r.keys is Pending,
            r.contents is Pending,
    {
        Pack { path, keys: PackKeysState::default(), contents: PackContentsState::default() }
    }

    /// Whether both the keys and the values have been read.
    pub fn loaded(&self) -> (r: bool)
        ensures
            r == spec_pack_loaded(*self),
    {
        matches!(self.keys, PackKeysState::Value(_)) && matches!(
            self.contents,
            PackContentsState::Value(_)
        )
    }

    /// The bytes of the keys and values the pack holds.
    pub fn size(&self) -> (r: usize)
        requires
            spec_pack_size(*self) <= usize::MAX,
        ensures
            r == spec_pack_size(*self),
    {
        proof {
            lemma_total_len_nonneg(pack_keys(*self));
            lemma_total_len_nonneg(pack_contents(*self));
        }
        let k: usize = match &self.keys {
            PackKeysState::Value(v) => sum_lens(v),
            PackKeysState::Pending => 0,
        };
        let c: usize = match &self.contents {
            PackContentsState::Value(v) => sum_lens(v),
            PackContentsState::Pending => 0,
        };
        k + c
    }
}

} // verus!
