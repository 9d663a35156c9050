use vstd::prelude::*;

use crate::meta::PackFileMeta;
use crate::meta_file::{meta_file, spec_read_scope_meta, meta_records, MetaFault};
use crate::meta_law::{plain_text, lemma_meta_file_roundtrip, expected_records, record_of};
use crate::pack::{Pack, pack_keys, pack_contents, pack_items};
use crate::pack_file::{
    pack_file, spec_read_pack_keys, spec_read_pack_contents, keys_header_ok, contents_header_ok,
    lemma_pack_file_roundtrip,
};
use crate::packing::SizeRule;
use crate::scope::PackScope;
use crate::scope_update::bucket_dir;
use crate::text::spec_join;
use crate::placement::{placed_pack, placed_scope, pack_fits};

verus! {

/// A pack whose file a save can write and read back: it lies as the scope
/// places it, and its file fits the machine.
pub open spec fn stored_pack(scope_path: Seq<char>, b: int, m: PackFileMeta, p: Pack) -> bool {
    &&& placed_pack(scope_path, b, m, p)
    &&& pack_fits(p)
}

/// A placed scope whose every pack's file fits the machine.
pub open spec fn stored_scope(s: PackScope) -> bool {
    &&& placed_scope(s)
    &&& forall|b: int, i: int|
        0 <= b < s.options.buckets && 0 <= i < s.packs->Value_0@[b]@.len() ==> pack_fits(
            #[trigger] s.packs->Value_0@[b]@[i],
        )
}

/// What a stored scope writes reads back: its meta file gives the bucket
/// count, the size limit, the time and every pack's name, hash and size; each
/// pack's file lies where its bucket and name point; and reading that file
/// gives the pack's keys and values, which pair up into exactly the pack's
/// items.
pub proof fn lemma_stored_scope_reads_back(s: PackScope)
    requires
        stored_scope(s),
    ensures
        spec_read_scope_meta(SizeRule::Split, meta_file(SizeRule::Split, s.meta->Value_0)) == Ok::<
            (nat, nat, nat, Seq<Seq<(Seq<char>, Seq<char>, nat)>>),
            MetaFault,
        >(
            (
                s.meta->Value_0.buckets as nat,
                s.meta->Value_0.max_pack_size as nat,
                s.meta->Value_0.last_modified as nat,
                meta_records(s.meta->Value_0.packs@),
            ),
        ),
        forall|b: int, i: int|
            0 <= b < s.options.buckets && 0 <= i < s.packs->Value_0@[b]@.len() ==> {
                let p = #[trigger] s.packs->Value_0@[b]@[i];
                let f = pack_file(pack_keys(p), pack_contents(p));
                &&& spec_join(
                    bucket_dir(s.path@, b),
                    meta_records(s.meta->Value_0.packs@)[b][i].0,
                ) == p.path@
                &&& keys_header_ok(f)
                &&& contents_header_ok(f)
                &&& spec_read_pack_keys(f) == Ok::<Seq<Seq<u8>>, Seq<char>>(pack_keys(p))
                &&& spec_read_pack_contents(f) == Ok::<Seq<Seq<u8>>, Seq<char>>(pack_contents(p))
                &&& pack_items(p) == Seq::new(
                    spec_read_pack_keys(f)->Ok_0.len(),
                    |j: int| (spec_read_pack_keys(f)->Ok_0[j], spec_read_pack_contents(f)->Ok_0[j]),
                )
            },
{
    let m = s.meta->Value_0;
    assert forall|b: int, j: int|
        0 <= b < m.packs@.len() && 0 <= j < m.packs@[b]@.len() implies plain_text(
            (#[trigger] m.packs@[b]@[j]).name@,
        ) && plain_text(m.packs@[b]@[j].hash@) by {
        assert(stored_pack(s.path@, b, m.packs@[b]@[j], s.packs->Value_0@[b]@[j]));
    }
    lemma_meta_file_roundtrip(SizeRule::Split, m);
    assert(expected_records(SizeRule::Split, m.packs@) =~= meta_records(m.packs@)) by {
        assert forall|b: int| 0 <= b < m.packs@.len() implies #[trigger] expected_records(
            SizeRule::Split,
            m.packs@,
        )[b] =~= meta_records(m.packs@)[b] by {
            assert forall|j: int| 0 <= j < m.packs@[b]@.len() implies expected_records(
                SizeRule::Split,
                m.packs@,
            )[b][j] == meta_records(m.packs@)[b][j] by {
                assert(record_of(SizeRule::Split, m.packs@[b]@[j]) == (
                    m.packs@[b]@[j].name@,
                    m.packs@[b]@[j].hash@,
                    m.packs@[b]@[j].size as nat,
                ));
            }
        }
    }
    assert forall|b: int, i: int|
        0 <= b < s.options.buckets && 0 <= i < s.packs->Value_0@[b]@.len() implies {
            let p = #[trigger] s.packs->Value_0@[b]@[i];
            let f = pack_file(pack_keys(p), pack_contents(p));
            &&& spec_join(bucket_dir(s.path@, b), meta_records(m.packs@)[b][i].0) == p.path@
            &&& keys_header_ok(f)
            &&& contents_header_ok(f)
            &&& spec_read_pack_keys(f) == Ok::<Seq<Seq<u8>>, Seq<char>>(pack_keys(p))
            &&& spec_read_pack_contents(f) == Ok::<Seq<Seq<u8>>, Seq<char>>(pack_contents(p))
            &&& pack_items(p) == Seq::new(
                spec_read_pack_keys(f)->Ok_0.len(),
                |j: int| (spec_read_pack_keys(f)->Ok_0[j], spec_read_pack_contents(f)->Ok_0[j]),
            )
        } by {
        let p = s.packs->Value_0@[b]@[i];
        assert(stored_pack(s.path@, b, m.packs@[b]@[i], p));
        lemma_pack_file_roundtrip(pack_keys(p), pack_contents(p));
        assert(meta_records(m.packs@)[b][i].0 == m.packs@[b]@[i].name@);
    }
}

} // verus!
