use std::collections::{HashMap, HashSet};

use rspack_storage::meta::ScopeMeta;
use rspack_storage::options::PackOptions;
use rspack_storage::pack::{PackContentsState, PackKeysState};
use rspack_storage::packing::SizeRule;
use rspack_storage::scope::{PackScope, ScopeMetaState, ScopePacksState};
use rspack_storage::scope_read::{
    contents_to_read, keys_to_read, read_contents, read_contents_into, read_keys, read_keys_into,
    read_meta, read_packs,
};
use rspack_storage::split::SplitPackStrategy;
use rspack_storage::storage::{FileMeta, WriteScopeResult};
use rspack_storage::update::Update;

/// Files kept in memory, with a clock for modification times.
struct MemFiles {
    files: HashMap<String, Vec<u8>>,
    clock: i64,
}

impl MemFiles {
    fn new() -> Self {
        MemFiles { files: HashMap::new(), clock: 0 }
    }

    fn write(&mut self, path: &str, bytes: &[u8]) -> FileMeta {
        self.clock += 1;
        self.files.insert(path.to_string(), bytes.to_vec());
        FileMeta { size: bytes.len() as u64, mtime: self.clock }
    }

    fn read(&self, path: &str) -> Option<Vec<u8>> {
        self.files.get(path).cloned()
    }
}

fn write_scope(
    strategy: &SplitPackStrategy,
    scope: &mut PackScope,
    fs: &mut MemFiles,
) -> WriteScopeResult {
    let mut res = WriteScopeResult::empty();
    let plan = strategy.write_packs(scope).expect("scope should be loaded");
    let mut stats = vec![];
    for job in plan.jobs.iter() {
        match &job.write {
            Ok((temp, bytes)) => stats.push(fs.write(temp, bytes)),
            Err(e) => panic!("{}", e.to_string()),
        }
    }
    res.extend(strategy.finish_write_packs(scope, plan, stats));
    let (temp, bytes, meta_res) = strategy.write_meta(scope).expect("should write meta");
    fs.write(&temp, &bytes);
    res.extend(meta_res);
    res
}

fn set_updates(items: Vec<(String, String)>) -> Vec<Update> {
    items
        .into_iter()
        .map(|(k, v)| (k.as_bytes().to_vec(), Some(v.as_bytes().to_vec())))
        .collect()
}

fn contents_map(scope: &PackScope) -> HashMap<Vec<u8>, Vec<u8>> {
    scope.get_contents().into_iter().collect()
}

fn count_scope_packs(scope: &PackScope) -> usize {
    match &scope.packs {
        ScopePacksState::Value(p) => p.iter().map(|b| b.len()).sum(),
        ScopePacksState::Pending => panic!("scope packs should be listed"),
    }
}

fn count_bucket_packs(scope: &PackScope) -> Vec<usize> {
    match &scope.packs {
        ScopePacksState::Value(p) => p.iter().map(|b| b.len()).collect(),
        ScopePacksState::Pending => panic!("scope packs should be listed"),
    }
}

fn get_bucket_pack_sizes(scope: &PackScope) -> Vec<usize> {
    let mut res: Vec<usize> = match &scope.meta {
        ScopeMetaState::Value(m) => m.packs.iter().flatten().map(|c| c.size).collect(),
        ScopeMetaState::Pending => panic!("scope meta should be read"),
    };
    res.sort_unstable();
    res
}

fn test_short_value(scope: &mut PackScope, strategy: &SplitPackStrategy, pre: usize, size: usize) {
    let mut items = vec![];
    for i in pre..pre + size {
        items.push((format!("{:0>4}_key", i), format!("{:0>4}_val", i)));
    }
    strategy.update_scope(scope, set_updates(items)).expect("should update");
    let contents = contents_map(scope);
    assert_eq!(contents.len(), pre + size);
    assert_eq!(
        contents
            .get(&format!("{:0>4}_key", pre).as_bytes().to_vec())
            .expect("should have key"),
        &format!("{:0>4}_val", pre).as_bytes().to_vec()
    );
    assert_eq!(
        contents
            .get(&format!("{:0>4}_key", pre + size - 1).as_bytes().to_vec())
            .expect("should have key"),
        &format!("{:0>4}_val", pre + size - 1).as_bytes().to_vec()
    );
}

fn test_long_value(scope: &mut PackScope, strategy: &SplitPackStrategy, size: usize) {
    let mut items = vec![];
    for i in 0..size {
        items.push((format!("{:0>20}_key", i), format!("{:0>20}_val", i)));
    }
    let pre_item_count = scope.get_contents().len();
    strategy.update_scope(scope, set_updates(items)).expect("should update");
    let contents = contents_map(scope);
    assert_eq!(contents.len(), pre_item_count + size);
    assert_eq!(
        contents
            .get(&format!("{:0>20}_key", 0).as_bytes().to_vec())
            .expect("should have key"),
        &format!("{:0>20}_val", 0).as_bytes().to_vec()
    );
    assert_eq!(
        contents
            .get(&format!("{:0>20}_key", size - 1).as_bytes().to_vec())
            .expect("should have key"),
        &format!("{:0>20}_val", size - 1).as_bytes().to_vec()
    );
}

fn test_update_value(scope: &mut PackScope, strategy: &SplitPackStrategy) {
    let key = format!("{:0>4}_key", 0);
    let val = format!("{:0>4}_new", 0);
    let pre_item_count = scope.get_contents().len();
    strategy.update_scope(scope, set_updates(vec![(key.clone(), val.clone())])).expect("should update");
    let contents = contents_map(scope);
    assert_eq!(contents.len(), pre_item_count);
    assert_eq!(
        contents.get(&key.as_bytes().to_vec()).expect("should have key"),
        &val.as_bytes().to_vec()
    );
}

fn test_remove_value(scope: &mut PackScope, strategy: &SplitPackStrategy) {
    let key = format!("{:0>4}_key", 1);
    let pre_item_count = scope.get_contents().len();
    strategy.update_scope(scope, vec![(key.as_bytes().to_vec(), None)]).expect("should update");
    let contents = contents_map(scope);
    assert_eq!(contents.len(), pre_item_count - 1);
    assert!(contents.get(&key.as_bytes().to_vec()).is_none());
}

fn new_scope(path: &str, buckets: usize, max_pack_size: usize) -> PackScope {
    let options = PackOptions { buckets, max_pack_size, expires: 1000000 };
    PackScope::empty(path.to_string(), options).expect("clock should be after the epoch")
}

#[test]
fn should_write_single_bucket_scope() {
    let strategy = SplitPackStrategy::new("/cache".to_string(), "/temp".to_string());
    let mut fs = MemFiles::new();
    let mut scope = new_scope("/cache/test_single_bucket", 1, 32);

    test_short_value(&mut scope, &strategy, 0, 10);
    assert_eq!(count_scope_packs(&scope), 5);
    let res = write_scope(&strategy, &mut scope, &mut fs);
    // 5 packs + 1 meta
    assert_eq!(res.writed_files.len(), 6);
    assert_eq!(res.removed_files.len(), 0);

    test_long_value(&mut scope, &strategy, 5);
    assert_eq!(count_scope_packs(&scope), 10);
    let res = write_scope(&strategy, &mut scope, &mut fs);
    // 5 packs + 1 meta
    assert_eq!(res.writed_files.len(), 6);
    assert_eq!(res.removed_files.len(), 0);

    test_update_value(&mut scope, &strategy);
    assert_eq!(count_scope_packs(&scope), 10);
    let res = write_scope(&strategy, &mut scope, &mut fs);
    // 1 packs + 1 meta
    assert_eq!(res.writed_files.len(), 2);
    assert_eq!(res.removed_files.len(), 1);

    test_remove_value(&mut scope, &strategy);
    assert_eq!(count_scope_packs(&scope), 10);
    let res = write_scope(&strategy, &mut scope, &mut fs);
    // 1 packs + 1 meta
    assert_eq!(res.writed_files.len(), 2);
    assert_eq!(res.removed_files.len(), 1);
}

#[test]
fn should_write_multi_bucket_scope() {
    let strategy = SplitPackStrategy::new("/cache".to_string(), "/temp".to_string());
    let mut fs = MemFiles::new();
    let mut scope = new_scope("/cache/test_multi_bucket", 10, 32);

    test_short_value(&mut scope, &strategy, 0, 100);
    assert_eq!(count_bucket_packs(&scope), vec![5; 10]);
    let res = write_scope(&strategy, &mut scope, &mut fs);
    // 50 packs + 1 meta
    assert_eq!(res.writed_files.len(), 51);
    assert_eq!(res.removed_files.len(), 0);

    test_long_value(&mut scope, &strategy, 50);
    assert_eq!(count_bucket_packs(&scope), vec![10; 10]);
    let res = write_scope(&strategy, &mut scope, &mut fs);
    // 50 packs + 1 meta
    assert_eq!(res.writed_files.len(), 51);
    assert_eq!(res.removed_files.len(), 0);

    test_update_value(&mut scope, &strategy);
    assert_eq!(count_bucket_packs(&scope), vec![10; 10]);
    let res = write_scope(&strategy, &mut scope, &mut fs);
    // 1 packs + 1 meta
    assert_eq!(res.writed_files.len(), 2);
    assert_eq!(res.removed_files.len(), 1);

    test_remove_value(&mut scope, &strategy);
    assert_eq!(count_bucket_packs(&scope), vec![10; 10]);
    let res = write_scope(&strategy, &mut scope, &mut fs);
    // 1 packs + 1 meta
    assert_eq!(res.writed_files.len(), 2);
    assert_eq!(res.removed_files.len(), 1);
}

#[test]
fn should_write_big_bucket_scope() {
    let strategy = SplitPackStrategy::new("/cache".to_string(), "/temp".to_string());
    let mut scope = new_scope("/cache/test_big_bucket", 1, 2000);

    // 200 * 16 = 3200 = 2000 + 1200
    test_short_value(&mut scope, &strategy, 0, 200);
    assert_eq!(count_scope_packs(&scope), 2);
    assert_eq!(get_bucket_pack_sizes(&scope), [1200, 2000]);

    // 3200 + 100 * 16 = 4800 = 2000 + 2000 + 800
    test_short_value(&mut scope, &strategy, 200, 100);
    assert_eq!(count_scope_packs(&scope), 3);
    assert_eq!(get_bucket_pack_sizes(&scope), [800, 2000, 2000]);

    // 4800 + 60 * 16 = 5760 = 2000 + 2000 + 1760(>1600)
    test_short_value(&mut scope, &strategy, 300, 60);
    assert_eq!(count_scope_packs(&scope), 3);
    assert_eq!(get_bucket_pack_sizes(&scope), [1760, 2000, 2000]);

    // 5760 + 160 = 5920 = 2000 + 2000 + 1760(>1600) + 160
    test_short_value(&mut scope, &strategy, 360, 10);
    assert_eq!(count_scope_packs(&scope), 4);
    assert_eq!(get_bucket_pack_sizes(&scope), [160, 1760, 2000, 2000]);
}

fn pack_file_text(keys: &[Vec<u8>], contents: &[Vec<u8>]) -> Vec<u8> {
    let mut out = vec![];
    out.extend(keys.iter().map(|k| k.len().to_string()).collect::<Vec<_>>().join(" ").as_bytes());
    out.push(b'\n');
    out.extend(contents.iter().map(|k| k.len().to_string()).collect::<Vec<_>>().join(" ").as_bytes());
    out.push(b'\n');
    for k in keys {
        out.extend(k);
    }
    for c in contents {
        out.extend(c);
    }
    out
}

fn mock_pack_file(fs: &mut MemFiles, path: &str, unique_id: &str, item_count: usize) {
    let mut keys = vec![];
    let mut contents = vec![];
    for i in 0..item_count {
        keys.push(format!("key_{}_{}", unique_id, i).as_bytes().to_vec());
        contents.push(format!("val_{}_{}", unique_id, i).as_bytes().to_vec());
    }
    fs.write(path, &pack_file_text(&keys, &contents));
}

#[test]
fn should_read_pack() {
    let dir = "/cache/test_read_pack";
    let mut fs = MemFiles::new();
    let strategy = SplitPackStrategy::new(dir.to_string(), "/temp".to_string());
    let path = format!("{}/mock_pack", dir);
    mock_pack_file(&mut fs, &path, "mock", 20);

    let keys: HashSet<Vec<u8>> = strategy
        .read_pack_keys(&path, fs.read(&path))
        .unwrap_or_else(|e| panic!("{}", e.to_string()))
        .unwrap_or_default()
        .into_iter()
        .collect();
    assert!(keys.contains(&"key_mock_0".as_bytes().to_vec()));
    assert!(keys.contains(&"key_mock_19".as_bytes().to_vec()));

    let contents: HashSet<Vec<u8>> = strategy
        .read_pack_contents(&path, fs.read(&path))
        .unwrap_or_else(|e| panic!("{}", e.to_string()))
        .unwrap_or_default()
        .into_iter()
        .collect();
    assert!(contents.contains(&"val_mock_0".as_bytes().to_vec()));
    assert!(contents.contains(&"val_mock_19".as_bytes().to_vec()));

    let missing = "/non_exists_path".to_string();
    assert!(strategy.read_pack_keys(&missing, fs.read(&missing)).unwrap_or_else(|e| panic!("{}", e.to_string())).is_none());
    assert!(strategy.read_pack_contents(&missing, fs.read(&missing)).unwrap_or_else(|e| panic!("{}", e.to_string())).is_none());
}

fn mock_packs(fs: &mut MemFiles, path: &str, options: &PackOptions) {
    for bucket_id in 0..options.buckets {
        for pack_no in 0..3 {
            let pack_name = format!("pack_name_{}_{}", bucket_id, pack_no);
            let mut keys = vec![];
            let mut contents = vec![];
            for i in 0..10 {
                keys.push(format!("key_{}_{}_{}", bucket_id, pack_no, i).as_bytes().to_vec());
                contents.push(format!("val_{}_{}_{}", bucket_id, pack_no, i).as_bytes().to_vec());
            }
            let file = format!("{}/{}/{}", path, bucket_id, pack_name);
            fs.write(&file, &pack_file_text(&keys, &contents));
        }
    }
}

fn mock_meta(fs: &mut MemFiles, path: &str, options: &PackOptions) {
    let current = std::time::SystemTime::now()
        .duration_since(std::time::UNIX_EPOCH)
        .expect("should get current time")
        .as_millis() as u64;
    let mut text = format!("{} {} {}\n", options.buckets, options.max_pack_size, current);
    for bucket_id in 0..options.buckets {
        let mut pack_meta_list = vec![];
        for pack_no in 0..3 {
            let pack_name = format!("pack_name_{}_{}", bucket_id, pack_no);
            let pack_hash = format!("pack_hash_{}_{}", bucket_id, pack_no);
            let pack_size = 100;
            pack_meta_list.push(format!("{},{},{}", pack_name, pack_hash, pack_size));
        }
        text.push_str(&pack_meta_list.join(" "));
        text.push('\n');
    }
    fs.write(path, text.as_bytes());
}

#[test]
fn should_read_scope() {
    let mut fs = MemFiles::new();
    let options = PackOptions { buckets: 1, max_pack_size: 16, expires: 60000 };
    let mut scope = PackScope::new("/cache/test_read_meta".to_string(), options);
    let meta_path = ScopeMeta::get_path(&scope.path);
    mock_meta(&mut fs, &meta_path, &scope.options);
    mock_packs(&mut fs, &scope.path.clone(), &scope.options);

    // read the meta
    let meta = read_meta(&scope, SizeRule::Split, fs.read(&meta_path))
        .unwrap_or_else(|e| panic!("{}", e.to_string()));
    assert_eq!(meta.path, ScopeMeta::get_path(&scope.path));
    assert_eq!(meta.buckets, scope.options.buckets);
    assert_eq!(meta.max_pack_size, scope.options.max_pack_size);
    assert_eq!(meta.packs.len(), scope.options.buckets);
    let records: Vec<(String, String, usize, bool)> = meta
        .packs
        .iter()
        .flatten()
        .map(|m| (m.name.clone(), m.hash.clone(), m.size, m.writed))
        .collect();
    assert_eq!(
        records,
        vec![
            ("pack_name_0_0".to_string(), "pack_hash_0_0".to_string(), 100, true),
            ("pack_name_0_1".to_string(), "pack_hash_0_1".to_string(), 100, true),
            ("pack_name_0_2".to_string(), "pack_hash_0_2".to_string(), 100, true),
        ]
    );
    scope.meta = ScopeMetaState::Value(meta);

    // list and read the packs
    let packs = read_packs(&scope);
    assert_eq!(packs.len(), scope.options.buckets);
    scope.packs = ScopePacksState::Value(packs);

    let candidates = keys_to_read(&scope);
    let files = candidates.iter().map(|c| fs.read(&c.2)).collect();
    let keys = read_keys(&candidates, files).unwrap_or_else(|e| panic!("{}", e.to_string()));
    assert_eq!(keys.len(), count_scope_packs(&scope));
    let all_keys: HashSet<Vec<u8>> = keys.into_iter().flat_map(|item| item.keys).collect();
    assert!(all_keys.contains(&format!("key_{}_{}_{}", scope.options.buckets - 1, 2, 9).as_bytes().to_vec()));

    let candidates = contents_to_read(&scope);
    let files = candidates.iter().map(|c| fs.read(&c.2)).collect();
    let contents = read_contents(&candidates, files).unwrap_or_else(|e| panic!("{}", e.to_string()));
    assert_eq!(contents.len(), count_scope_packs(&scope));
    let all_contents: HashSet<Vec<u8>> = contents.into_iter().flat_map(|item| item.contents).collect();
    assert!(all_contents.contains(&format!("val_{}_{}_{}", scope.options.buckets - 1, 2, 9).as_bytes().to_vec()));

    // reading keys and values leaves the listed packs as they were
    match &scope.packs {
        ScopePacksState::Value(bs) => {
            assert!(bs.iter().flatten().all(|p| matches!(p.keys, PackKeysState::Pending)
                && matches!(p.contents, PackContentsState::Pending)));
        }
        ScopePacksState::Pending => panic!("packs should be listed"),
    }
}

fn move_in_place(strategy: &SplitPackStrategy, fs: &mut MemFiles, res: &WriteScopeResult) {
    let moves = strategy
        .temp_file_moves(&res.writed_files)
        .unwrap_or_else(|e| panic!("{}", e.to_string()));
    for (from, to) in moves {
        let bytes = fs.files.remove(&from).expect("written file should exist");
        fs.write(&to, &bytes);
    }
    for path in res.removed_files.iter() {
        fs.files.remove(path);
    }
}

fn load_scope(fs: &MemFiles, path: &str, options: PackOptions) -> PackScope {
    let mut scope = PackScope::new(path.to_string(), options);
    let meta_path = ScopeMeta::get_path(&scope.path);
    let meta = read_meta(&scope, SizeRule::Split, fs.read(&meta_path))
        .unwrap_or_else(|e| panic!("{}", e.to_string()));
    scope.meta = ScopeMetaState::Value(meta);
    scope.packs = ScopePacksState::Value(read_packs(&scope));

    let candidates = keys_to_read(&scope);
    let files = candidates.iter().map(|c| fs.read(&c.2)).collect();
    read_keys_into(&mut scope, &candidates, files).unwrap_or_else(|e| panic!("{}", e.to_string()));
    let candidates = contents_to_read(&scope);
    let files = candidates.iter().map(|c| fs.read(&c.2)).collect();
    read_contents_into(&mut scope, &candidates, files).unwrap_or_else(|e| panic!("{}", e.to_string()));
    scope
}

#[test]
fn saved_scope_reads_back() {
    let strategy = SplitPackStrategy::new("/cache".to_string(), "/temp".to_string());
    let mut fs = MemFiles::new();
    let options = PackOptions { buckets: 4, max_pack_size: 64, expires: 1000000 };
    let mut scope = new_scope("/cache/test_read_back", 4, 64);

    test_short_value(&mut scope, &strategy, 0, 40);
    test_long_value(&mut scope, &strategy, 6);
    let res = write_scope(&strategy, &mut scope, &mut fs);
    move_in_place(&strategy, &mut fs, &res);
    let loaded = load_scope(&fs, "/cache/test_read_back", options);
    assert!(loaded.loaded());
    assert_eq!(contents_map(&loaded), contents_map(&scope));
    assert_eq!(contents_map(&loaded).len(), 46);
}


#[test]
fn repacked_pack_with_a_removed_name_stays() {
    let strategy = SplitPackStrategy::new("/cache".to_string(), "/temp".to_string());
    let mut fs = MemFiles::new();
    let options = PackOptions { buckets: 4, max_pack_size: 64, expires: 1000000 };
    let mut scope = new_scope("/cache/test_repack", 4, 64);
    test_short_value(&mut scope, &strategy, 0, 40);
    test_long_value(&mut scope, &strategy, 6);
    let res = write_scope(&strategy, &mut scope, &mut fs);
    move_in_place(&strategy, &mut fs, &res);

    // Dirty buckets are repacked; a pack is named after its keys, so a
    // repacked pack may take the name of a removed one. Pack files must not
    // be removed, so such a file leaves the removal list.
    test_update_value(&mut scope, &strategy);
    test_remove_value(&mut scope, &strategy);
    let res = write_scope(&strategy, &mut scope, &mut fs);
    assert!(res.writed_files.iter().all(|f| !res.removed_files.contains(f)));
    move_in_place(&strategy, &mut fs, &res);
    let loaded = load_scope(&fs, "/cache/test_repack", options);
    assert_eq!(contents_map(&scope).len(), 45);
    assert_eq!(contents_map(&loaded), contents_map(&scope));
    assert_eq!(
        contents_map(&loaded).get(&"0000_key".as_bytes().to_vec()),
        Some(&"0000_new".as_bytes().to_vec())
    );
}

#[test]
fn read_keys_into_records_each_pack() {
    let mut fs = MemFiles::new();
    let options = PackOptions { buckets: 2, max_pack_size: 16, expires: 60000 };
    let path = "/cache/test_read_into";
    mock_meta(&mut fs, &ScopeMeta::get_path(&path.to_string()), &options);
    mock_packs(&mut fs, path, &options);
    fs.files.remove(&format!("{}/1/pack_name_1_2", path));
    let scope = load_scope(&fs, path, options);
    assert!(scope.loaded());
    match &scope.packs {
        ScopePacksState::Value(packs) => {
            for (b, bucket) in packs.iter().enumerate() {
                for (i, pack) in bucket.iter().enumerate() {
                    let (keys, contents) = match (&pack.keys, &pack.contents) {
                        (PackKeysState::Value(k), PackContentsState::Value(c)) => (k, c),
                        _ => panic!("pack should be read"),
                    };
                    if b == 1 && i == 2 {
                        assert!(keys.is_empty());
                        assert!(contents.is_empty());
                    } else {
                        assert_eq!(keys.len(), 10);
                        assert_eq!(keys[9], format!("key_{}_{}_{}", b, i, 9).as_bytes().to_vec());
                        assert_eq!(contents[0], format!("val_{}_{}_{}", b, i, 0).as_bytes().to_vec());
                    }
                }
            }
        }
        ScopePacksState::Pending => panic!("packs should be listed"),
    }
    assert_eq!(scope.get_contents().len(), 50);
}

#[test]
fn written_pack_reads_back_from_its_temp_file() {
    let strategy = SplitPackStrategy::new("/cache".to_string(), "/temp".to_string());
    let path = "/cache/scope/0/p".to_string();
    let keys = vec![b"k1".to_vec(), b"key two".to_vec(), vec![]];
    let contents = vec![b"v1".to_vec(), vec![0u8, 10, 32, 44], b"third".to_vec()];
    let (temp, bytes) = strategy
        .write_pack(&path, &keys, &contents)
        .unwrap_or_else(|e| panic!("{}", e.to_string()));
    assert_eq!(temp, "/temp/scope/0/p");
    assert_eq!(strategy.get_temp_path(&path).ok(), Some(temp.clone()));
    let read_keys = strategy.read_pack_keys(&temp, Some(bytes.clone())).unwrap_or_else(|e| panic!("{}", e.to_string()));
    let read_contents = strategy.read_pack_contents(&temp, Some(bytes)).unwrap_or_else(|e| panic!("{}", e.to_string()));
    assert_eq!(read_keys, Some(keys));
    assert_eq!(read_contents, Some(contents));
}
