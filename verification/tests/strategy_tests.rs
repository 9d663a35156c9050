use std::collections::HashMap;

use rspack_storage::error::StorageError;
use rspack_storage::hash::pack_hash;
use rspack_storage::meta::{PackFileMeta, ScopeMeta};
use rspack_storage::options::PackOptions;
use rspack_storage::pack::{PackContentsState, PackKeysState};
use rspack_storage::pack_file::{contents_header_valid, keys_header_valid, pack_file_bytes};
use rspack_storage::scope::PackScope;
use rspack_storage::split::SplitPackStrategy;
use rspack_storage::storage::{FileMeta, PackFsType, PackStorageFs, PackStorageOptions};
use rspack_storage::strategy::PackStrategy;
use rspack_storage::validate::ValidateResult;

fn b(s: &str) -> Vec<u8> {
    s.as_bytes().to_vec()
}

fn legacy() -> PackStrategy {
    PackStrategy::new("/cache".to_string(), "/temp".to_string(), PackStorageFs::new())
}

fn storage_options(max_pack_size: usize) -> PackStorageOptions {
    PackStorageOptions {
        root: "/cache".to_string(),
        temp_root: "/temp".to_string(),
        fs: PackFsType::Native,
        buckets: 1,
        max_pack_size,
        expires: 100,
    }
}

fn items_of(packs: &[(PackFileMeta, rspack_storage::pack::Pack)]) -> HashMap<Vec<u8>, Vec<u8>> {
    let mut out = HashMap::new();
    for (_, p) in packs {
        if let (PackKeysState::Value(ks), PackContentsState::Value(cs)) = (&p.keys, &p.contents) {
            for (k, c) in ks.iter().zip(cs.iter()) {
                out.insert(k.clone(), c.clone());
            }
        }
    }
    out
}

#[test]
fn legacy_write_and_read_pack() {
    let s = legacy();
    let keys = vec![b("a"), b("bb")];
    let contents = vec![b("1"), b("22")];
    let (temp, bytes) = s.write(&"/cache/x/0/p".to_string(), &keys, &contents).unwrap_or_else(|e| panic!("{}", e.to_string()));
    assert_eq!(temp, "/temp/x/0/p");
    assert_eq!(bytes, pack_file_bytes(&keys, &contents));
    assert!(keys_header_valid(&bytes));
    assert!(contents_header_valid(&bytes));
    let path = "/cache/x/0/p".to_string();
    assert_eq!(s.read_keys(&path, Some(bytes.clone())).ok(), Some(Some(keys)));
    assert_eq!(s.read_contents(&path, Some(bytes)).ok(), Some(Some(contents)));
    assert!(matches!(s.write(&"/elsewhere".to_string(), &vec![], &vec![]), Err(StorageError::RelativePath)));
}

#[test]
fn header_checks_find_broken_numbers() {
    assert!(!keys_header_valid(&b("x\n\n")));
    assert!(keys_header_valid(&b("1\n1\nab")));
    assert!(!contents_header_valid(&b("1\nz\nab")));
    assert!(!contents_header_valid(&b("9223372036854775808\n1\n")));
    assert!(contents_header_valid(&vec![0xff]));
}

#[test]
fn legacy_hash_of_written_pack() {
    let s = legacy();
    let keys = vec![b("a")];
    let meta = FileMeta { size: 12, mtime: 99 };
    assert_eq!(s.get_hash(&keys, &vec![], &meta), pack_hash(&keys, &vec![b("v")], 12, 99));
}

#[test]
fn legacy_create_and_incremental() {
    let s = legacy();
    let dir = "/cache/x/0".to_string();
    let opts = storage_options(4);
    let packs = s.create(&dir, &opts, vec![(b("a"), b("1")), (b("b"), b("22")), (b("c"), b("55555"))]);
    // "55555" is longer than half the size: a pack of its own, first
    assert_eq!(packs.len(), 2);
    assert_eq!(items_of(&packs[..1]), [(b("c"), b("55555"))].into_iter().collect());
    let mut packs = packs;
    let mut updates = vec![(b("c"), None), (b("d"), Some(b("4"))), (b("z"), None)];
    let res = s.incremental(dir.clone(), &opts, &mut packs, &mut updates);
    assert_eq!(res.removed_files.len(), 1);
    assert_eq!(res.remain_packs.len(), 1);
    // the kept packs stay in `packs`, the removals in `updates`
    assert_eq!(items_of(&packs), items_of(&res.remain_packs));
    assert_eq!(updates, vec![(b("c"), None), (b("z"), None)]);
    let mut all = items_of(&res.remain_packs);
    all.extend(items_of(&res.new_packs));
    assert_eq!(all, [(b("a"), b("1")), (b("b"), b("22")), (b("d"), b("4"))].into_iter().collect());
}

#[test]
fn legacy_meta_file_round_trip() {
    let s = legacy();
    let meta = ScopeMeta {
        path: "/cache/x/cache_meta".to_string(),
        buckets: 1,
        max_pack_size: 8,
        last_modified: 3,
        packs: vec![vec![PackFileMeta { hash: "h".to_string(), name: "n".to_string(), size: 7, writed: true }]],
    };
    let (temp, bytes) = s.write_scope_meta(&meta).unwrap_or_else(|e| panic!("{}", e.to_string()));
    assert_eq!(temp, "/temp/x/cache_meta");
    assert_eq!(bytes, b("1 8 3\nn,h\n"));
    let read = s.read_scope_meta(&meta.path, Some(bytes)).unwrap_or_else(|e| panic!("{}", e.to_string())).expect("exists");
    assert_eq!((read.packs[0][0].name.as_str(), read.packs[0][0].hash.as_str(), read.packs[0][0].size), ("n", "h", 0));
}

#[test]
fn split_write_pack_and_update_pack() {
    let s = SplitPackStrategy::new("/cache".to_string(), "/temp".to_string());
    let (temp, bytes) = s.write_pack(&"/cache/s/1/p".to_string(), &vec![b("k")], &vec![b("v")]).unwrap_or_else(|e| panic!("{}", e.to_string()));
    assert_eq!(temp, "/temp/s/1/p");
    assert_eq!(bytes, b("1\n1\nkv"));
    let opts = PackOptions { buckets: 1, max_pack_size: 10, expires: 10 };
    let res = s.update_pack("/cache/s/1".to_string(), &opts, vec![], vec![(b("k"), Some(b("v"))), (b("q"), None)]);
    assert!(res.remain_packs.is_empty());
    assert!(res.removed_files.is_empty());
    assert_eq!(items_of(&res.new_packs), [(b("k"), b("v"))].into_iter().collect());
    assert_eq!(res.new_packs[0].0.size, 2);
    // the new pack is small: the next update repacks it
    let again = s.update_pack("/cache/s/1".to_string(), &opts, res.new_packs, vec![(b("z"), Some(b("zz")))]);
    assert_eq!(again.removed_files.len(), 1);
    assert_eq!(items_of(&again.new_packs), [(b("k"), b("v")), (b("z"), b("zz"))].into_iter().collect());
}

#[test]
fn split_meta_file_round_trip() {
    let s = SplitPackStrategy::new("/cache".to_string(), "/temp".to_string());
    let mut scope = PackScope::empty_at("/cache/s".to_string(), PackOptions { buckets: 2, max_pack_size: 100, expires: 10 }, 9);
    s.update_scope(&mut scope, vec![(b("a"), Some(b("1"))), (b("b"), Some(b("2")))]).unwrap_or_else(|e| panic!("{}", e.to_string()));
    let (temp, bytes, res) = s.write_meta(&scope).unwrap_or_else(|e| panic!("{}", e.to_string()));
    assert_eq!(temp, "/temp/s/cache_meta");
    assert_eq!(res.writed_files, vec!["/cache/s/cache_meta".to_string()]);
    let read = s.read_scope_meta(&"/cache/s/cache_meta".to_string(), Some(bytes)).unwrap_or_else(|e| panic!("{}", e.to_string())).expect("exists");
    let meta = scope.meta.expect_value();
    assert_eq!(read.buckets, 2);
    assert_eq!(read.last_modified, 9);
    for (x, y) in read.packs.iter().flatten().zip(meta.packs.iter().flatten()) {
        assert_eq!((&x.name, &x.hash, x.size), (&y.name, &y.hash, y.size));
    }
    assert_eq!(read.packs.iter().flatten().count(), meta.packs.iter().flatten().count());
}

#[test]
fn split_validate_meta_at_times() {
    let s = SplitPackStrategy::new("/cache".to_string(), "/temp".to_string());
    let scope = PackScope::empty_at("/cache/s".to_string(), PackOptions { buckets: 1, max_pack_size: 10, expires: 5 }, 100);
    assert!(matches!(s.validate_meta_at(&scope, 105), ValidateResult::Valid));
    match s.validate_meta_at(&scope, 106) {
        ValidateResult::Invalid(m) => assert_eq!(m, "scope expired"),
        ValidateResult::Valid => panic!("should expire"),
    }
    assert!(matches!(s.validate_meta(&scope), Ok(ValidateResult::Invalid(_))));
}
