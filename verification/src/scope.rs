use vstd::prelude::*;

use crate::meta::{ScopeMeta, PackFileMeta, clone_pack_file_meta, meta_file_name};
use crate::model::{Item, items_view, clone_bytes};
use crate::options::PackOptions;
use crate::pack::{Pack, PackKeysState, PackContentsState, pack_items, spec_pack_loaded};
use crate::text::{join_path, spec_join, usize_to_string, ascii_chars, spec_decimal};
use crate::placement::placed_scope;

verus! {

/// The meta of a scope: not read yet, or read.
#[derive(Debug)]
pub enum ScopeMetaState {
    Pending,
    Value(ScopeMeta),
}

impl ScopeMetaState {
    /// The meta, which must have been read.
    pub fn expect_value(&self) -> (r: &ScopeMeta)
        requires
            self is Value,
        ensures
            *r == self->Value_0,
    {
        match self {
            ScopeMetaState::Value(v) => v,
            ScopeMetaState::Pending => {
                assert(false);
                unreached()
            },
        }
    }

    /// The meta, for change; it must have been read.
    pub fn expect_value_mut(&mut self) -> (r: &mut ScopeMeta)
        requires
            (*old(self)) is Value,
        ensures
            *r == (*old(self))->Value_0,
            *final(self) == ScopeMetaState::Value(*final(r)),
    {
        match self {
            ScopeMetaState::Value(v) => v,
            ScopeMetaState::Pending => {
                assert(false);
                unreached()
            },
        }
    }

    /// Takes the meta out, leaving an empty meta in its place; `None` while it
    /// is pending.
    pub fn take_value(&mut self) -> (r: Option<ScopeMeta>)
        ensures
            (*old(self)) is Pending ==> r is None && *final(self) == *old(self),
            (*old(self)) is Value ==> r == Some((*old(self))->Value_0) && (*final(self)) is Value && {
                let m = (*final(self))->Value_0;
                &&& m.path@ == Seq::<char>::empty()
                &&& m.buckets == 0
                &&& m.max_pack_size == 0
                &&& m.last_modified == 0
                &&& m.packs@ == Seq::<Vec<PackFileMeta>>::empty()
            },
    {
        match self {
            ScopeMetaState::Value(v) => {
                let mut taken = ScopeMeta::default();
                std::mem::swap(v, &mut taken);
                Some(taken)
            },
            ScopeMetaState::Pending => None,
        }
    }
}

/// The packs of a scope, bucket by bucket.
pub type ScopePacks = Vec<Vec<Pack>>;

/// The packs of a scope: not listed yet, or listed.
#[derive(Debug)]
pub enum ScopePacksState {
    Pending,
    Value(ScopePacks),
}

impl ScopePacksState {
    /// The packs, which must have been listed.
    pub fn expect_value(&self) -> (r: &ScopePacks)
        requires
            self is Value,
        ensures
            *r == self->Value_0,
    {
        match self {
            ScopePacksState::Value(v) => v,
            ScopePacksState::Pending => {
                assert(false);
                unreached()
            },
        }
    }

    /// The packs, for change; they must have been listed.
    pub fn expect_value_mut(&mut self) -> (r: &mut ScopePacks)
        requires
            (*old(self)) is Value,
        ensures
            *r == (*old(self))->Value_0,
            *final(self) == ScopePacksState::Value(*final(r)),
    {
        match self {
            ScopePacksState::Value(v) => v,
            ScopePacksState::Pending => {
                assert(false);
                unreached()
            },
        }
    }

    /// Takes the packs out, leaving no buckets in their place; `None` while
    /// they are pending.
    pub fn take_value(&mut self) -> (r: Option<ScopePacks>)
        ensures
            (*old(self)) is Pending ==> r is None && *final(self) == *old(self),
            (*old(self)) is Value ==> r == Some((*old(self))->Value_0) && (*final(self)) is Value && (
            (*final(self))->Value_0)@ == Seq::<Vec<Pack>>::empty(),
    {
        match self {
            ScopePacksState::Value(v) => {
                let mut taken: Vec<Vec<Pack>> = Vec::new();
                std::mem::swap(v, &mut taken);
                Some(taken)
            },
            ScopePacksState::Pending => None,
        }
    }
}

/// One scope of the storage: a directory of buckets of packs, with its meta.
#[derive(Debug)]
pub struct PackScope {
    pub path: String,
    pub options: PackOptions,
    pub meta: ScopeMetaState,
    pub packs: ScopePacksState,
    /// Files that the next save removes.
    pub removed: Vec<String>,
}

/// The items of the packs of one bucket, pack after pack.
pub open spec fn bucket_items(ps: Seq<Pack>) -> Seq<(Seq<u8>, Seq<u8>)>
    decreases ps.len(),
{
    if ps.len() == 0 {
        Seq::empty()
    } else {
        bucket_items(ps.drop_last()) + pack_items(ps.last())
    }
}

/// The items of all buckets, bucket after bucket.
pub open spec fn buckets_items(bs: Seq<Vec<Pack>>) -> Seq<(Seq<u8>, Seq<u8>)>
    decreases bs.len(),
{
    if bs.len() == 0 {
        Seq::empty()
    } else {
        buckets_items(bs.drop_last()) + bucket_items(bs.last()@)
    }
}

/// What a scope holds: the items of its listed packs.
pub open spec fn scope_items(s: PackScope) -> Seq<(Seq<u8>, Seq<u8>)> {
    match s.packs {
        ScopePacksState::Value(bs) => buckets_items(bs@),
        ScopePacksState::Pending => Seq::empty(),
    }
}

pub open spec fn spec_scope_loaded(s: PackScope) -> bool {
    &&& s.meta is Value
    &&& s.packs is Value
    &&& forall|b: int, i: int|
        0 <= b < (s.packs->Value_0)@.len() && 0 <= i < (s.packs->Value_0)@[b]@.len()
            ==> spec_pack_loaded(#[trigger] (s.packs->Value_0)@[b]@[i])
}

fn copy_item(p: &Pack, i: usize) -> (r: Item)
    requires
        pack_items(*p).len() > 0,
        i < pack_items(*p).len(),
    ensures
        (r.0@, r.1@) == pack_items(*p)[i as int],
{
    match (&p.keys, &p.contents) {
        (PackKeysState::Value(ks), PackContentsState::Value(cs)) => {
            (clone_bytes(&ks[i]), clone_bytes(&cs[i]))
        },
        _ => {
            assert(false);
            unreached()
        },
    }
}

fn pack_item_count(p: &Pack) -> (n: usize)
    ensures
        n == pack_items(*p).len(),
{
    match (&p.keys, &p.contents) {
        (PackKeysState::Value(ks), PackContentsState::Value(cs)) => {
            if ks.len() == cs.len() {
                ks.len()
            } else {
                0
            }
        },
        _ => 0,
    }
}

impl PackScope {
    /// A scope in `path` whose meta and packs are not read yet.
    pub fn new(path: String, options: PackOptions) -> (r: PackScope)
        ensures
            r.path == path,
            r.options == options,
            r.meta is Pending,
            r.packs is Pending,
            r.removed@.len() == 0,
    {
        PackScope {
            path,
            options,
            meta: ScopeMetaState::Pending,
            packs: ScopePacksState::Pending,
            removed: Vec::new(),
        }
    }

    /// An empty scope in `path` created at `now`: its meta has no packs and
    /// each bucket is empty.
    pub fn empty_at(path: String, options: PackOptions, now: u64) -> (r: PackScope)
        ensures
            r.path == path,
            r.options == options,
            r.meta is Value,
            r.meta->Value_0.path@ == spec_join(path@, meta_file_name()),
            r.meta->Value_0.buckets == options.buckets,
            r.meta->Value_0.max_pack_size == options.max_pack_size,
            r.meta->Value_0.last_modified == now,
            r.meta->Value_0.packs@.len() == options.buckets,
            forall|b: int|
                0 <= b < options.buckets ==> (#[trigger] r.meta->Value_0.packs@[b])@.len() == 0,
            r.packs is Value,
            r.packs->Value_0@.len() == options.buckets,
            forall|b: int| 0 <= b < options.buckets ==> (#[trigger] r.packs->Value_0@[b])@.len() == 0,
            r.removed@.len() == 0,
            options.buckets > 0 ==> placed_scope(r),
    {
        let meta = ScopeMeta::new_at(&path, &options, now);
        let mut packs: Vec<Vec<Pack>> = Vec::new();
        let mut b: usize = 0;
        while b < options.buckets
            invariant
                b <= options.buckets,
                packs@.len() == b,
                forall|k: int| 0 <= k < b ==> (#[trigger] packs@[k])@.len() == 0,
            decreases options.buckets - b,
        {
            packs.push(Vec::new());
            b = b + 1;
        }
        PackScope {
            path,
            options,
            meta: ScopeMetaState::Value(meta),
            packs: ScopePacksState::Value(packs),
            removed: Vec::new(),
        }
    }

    /// An empty scope in `path` created now; `None` when the system clock
    /// stands before the Unix epoch.
    pub fn empty(path: String, options: PackOptions) -> (r: Option<PackScope>)
        ensures
            r matches Some(s) ==> {
                &&& s.path == path
                &&& s.options == options
                &&& s.meta is Value
                &&& s.meta->Value_0.path@ == spec_join(path@, meta_file_name())
                &&& s.meta->Value_0.buckets == options.buckets
                &&& s.meta->Value_0.max_pack_size == options.max_pack_size
                &&& s.meta->Value_0.packs@.len() == options.buckets
                &&& s.packs is Value
                &&& s.packs->Value_0@.len() == options.buckets
                &&& forall|b: int| 0 <= b < options.buckets ==> (#[trigger] s.packs->Value_0@[b])@.len() == 0
                &&& forall|b: int| 0 <= b < options.buckets ==> (#[trigger] s.meta->Value_0.packs@[b])@.len() == 0
                &&& s.removed@.len() == 0
                &&& options.buckets > 0 ==> placed_scope(s)
            },
    {
        match crate::meta::current_secs() {
            Some(now) => Some(Self::empty_at(path, options, now)),
            None => None,
        }
    }

    /// Whether the meta and the packs are listed and every pack is read.
    pub fn loaded(&self) -> (r: bool)
        ensures
            r == spec_scope_loaded(*self),
    {
        match (&self.meta, &self.packs) {
            (ScopeMetaState::Value(_), ScopePacksState::Value(bs)) => {
                let mut b: usize = 0;
                while b < bs.len()
                    invariant
                        self.packs is Value,
                        *bs == self.packs->Value_0,
                        b <= bs@.len(),
                        forall|b2: int, i: int|
                            0 <= b2 < b && 0 <= i < bs@[b2]@.len() ==> spec_pack_loaded(
                                #[trigger] bs@[b2]@[i],
                            ),
                    decreases bs@.len() - b,
                {
                    let mut i: usize = 0;
                    while i < bs[b].len()
                        invariant
                            self.packs is Value,
                            *bs == self.packs->Value_0,
                            b < bs@.len(),
                            i <= bs@[b as int]@.len(),
                            forall|i2: int|
                                0 <= i2 < i ==> spec_pack_loaded(#[trigger] bs@[b as int]@[i2]),
                        decreases bs@[b as int]@.len() - i,
                    {
                        if !bs[b][i].loaded() {
                            proof {
                                assert(!spec_pack_loaded(bs@[b as int]@[i as int]));
                            }
                            return false;
                        }
                        i = i + 1;
                    }
                    b = b + 1;
                }
                true
            },
            _ => false,
        }
    }

    /// The items of the scope's packs: for every read pack whose keys and
    /// values agree in number, its keys paired with its values.
    pub fn get_contents(&self) -> (r: Vec<Item>)
        requires
            self.packs is Value,
        ensures
            items_view(r@) == scope_items(*self),
    {
        let bs = self.packs.expect_value();
        let mut out: Vec<Item> = Vec::new();
        let mut b: usize = 0;
        while b < bs.len()
            invariant
                b <= bs@.len(),
                items_view(out@) == buckets_items(bs@.take(b as int)),
            decreases bs@.len() - b,
        {
            let ghost before_bucket = items_view(out@);
            let mut i: usize = 0;
            proof {
                assert(bs@[b as int]@.take(0) =~= Seq::<Pack>::empty());
                assert(before_bucket + bucket_items(Seq::<Pack>::empty()) =~= before_bucket);
            }
            while i < bs[b].len()
                invariant
                    b < bs@.len(),
                    i <= bs@[b as int]@.len(),
                    items_view(out@) == before_bucket + bucket_items(bs@[b as int]@.take(i as int)),
                decreases bs@[b as int]@.len() - i,
            {
                let p = &bs[b][i];
                let n = pack_item_count(p);
                let ghost before_pack = items_view(out@);
                let mut t: usize = 0;
                proof {
                    assert(pack_items(*p).take(0) =~= Seq::<(Seq<u8>, Seq<u8>)>::empty());
                    assert(before_pack + pack_items(*p).take(0) =~= before_pack);
                }
                while t < n
                    invariant
                        n == pack_items(*p).len(),
                        t <= n,
                        items_view(out@) == before_pack + pack_items(*p).take(t as int),
                    decreases n - t,
                {
                    let it = copy_item(p, t);
                    let ghost ob = items_view(out@);
                    out.push(it);
                    proof {
                        assert(items_view(out@) =~= ob.push((it.0@, it.1@)));
                        assert(pack_items(*p).take(t + 1) =~= pack_items(*p).take(t as int).push(pack_items(*p)[t as int]));
                    }
                    t = t + 1;
                }
                proof {
                    let ps = bs@[b as int]@;
                    assert(pack_items(*p).take(t as int) =~= pack_items(*p));
                    assert(ps.take(i + 1).drop_last() =~= ps.take(i as int));
                    assert(ps.take(i + 1).last() == *p);
                    assert(bucket_items(ps.take(i + 1)) == bucket_items(ps.take(i as int)) + pack_items(*p));
                }
                i = i + 1;
            }
            proof {
                let ps = bs@[b as int]@;
                assert(ps.take(i as int) =~= ps);
                assert(bs@.take(b + 1).drop_last() =~= bs@.take(b as int));
                assert(bs@.take(b + 1).last() == bs@[b as int]);
            }
            b = b + 1;
        }
        proof {
            assert(bs@.take(b as int) =~= bs@);
        }
        out
    }
}

} // verus!
