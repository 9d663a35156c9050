use std::collections::{HashMap, HashSet};

use rspack_storage::bucket::{bucket_for, choose_bucket};
use rspack_storage::error::StorageError;
use rspack_storage::hash::{choose_hashed_bucket, get_name, pack_hash};
use rspack_storage::limits::{keys_computable, shape_ok, stall_free, update_allowed, update_keys_distinct};
use rspack_storage::meta::{PackFileMeta, ScopeMeta};
use rspack_storage::meta_file::read_scope_meta;
use rspack_storage::options::PackOptions;
use rspack_storage::pack::{Pack, PackContentsState, PackKeysState};
use rspack_storage::packing::{create_packs, sort_by_value_len, SizeRule};
use rspack_storage::paths::{strip_prefix, temp_path};
use rspack_storage::pending::ScopeUpdates;
use rspack_storage::scope::{PackScope, ScopeMetaState, ScopePacksState};
use rspack_storage::scope_read::{get_pack_meta_pairs, read_meta_at};
use rspack_storage::scope_save::{finish_save_scope, save_scope, update_scope};
use rspack_storage::split::SplitPackStrategy;
use rspack_storage::storage::{FileMeta, PackStorageFs, PackStorageOptions, PackFsType, WriteScopeResult};
use rspack_storage::strategy::PackStrategy;
use rspack_storage::update::{update_packs, Update};
use rspack_storage::validate::{check_meta, packs_to_validate, packs_verdict, validate_pack, ValidateResult};

fn b(s: &str) -> Vec<u8> {
    s.as_bytes().to_vec()
}

fn item(k: &str, v: &str) -> (Vec<u8>, Vec<u8>) {
    (b(k), b(v))
}

fn pack_keys(p: &Pack) -> Vec<Vec<u8>> {
    match &p.keys {
        PackKeysState::Value(k) => k.clone(),
        PackKeysState::Pending => panic!("keys should be read"),
    }
}

fn options(buckets: usize, max_pack_size: usize) -> PackOptions {
    PackOptions { buckets, max_pack_size, expires: 1000 }
}

fn is_hex16(s: &str) -> bool {
    s.len() == 16 && s.chars().all(|c| c.is_ascii_hexdigit() && !c.is_ascii_uppercase())
}

#[test]
fn choose_bucket_sums_bytes() {
    assert_eq!(choose_bucket(&b("abc"), 10), 4);
    assert_eq!(choose_bucket(&vec![], 3), 0);
    assert_eq!(choose_bucket(&vec![255, 255], 7), 510 % 7);
    assert_eq!(bucket_for(SizeRule::Split, &b("abc"), 10), 4);
}

#[test]
fn hashed_bucket_is_in_range_and_stable() {
    for key in ["", "a", "some key", "another key"] {
        let x = choose_hashed_bucket(&b(key), 7);
        assert!(x < 7);
        assert_eq!(x, choose_hashed_bucket(&b(key), 7));
        assert_eq!(x, bucket_for(SizeRule::Legacy, &b(key), 7));
    }
}

#[test]
fn pack_name_hashes_keys_only() {
    let keys = vec![b("k1"), b("k2")];
    let name = get_name(&keys, &vec![b("v1"), b("v2")]);
    assert!(is_hex16(&name));
    assert_eq!(name, get_name(&keys, &vec![]));
    assert_ne!(name, get_name(&vec![b("k1")], &vec![]));
    assert_ne!(name, get_name(&vec![b("k2"), b("k1")], &vec![]));
}

#[test]
fn pack_hash_depends_on_file() {
    let keys = vec![b("k1")];
    let h = pack_hash(&keys, &vec![], 10, 20);
    assert!(is_hex16(&h));
    assert_eq!(h, pack_hash(&keys, &vec![b("x")], 10, 20));
    assert_ne!(h, pack_hash(&keys, &vec![], 11, 20));
    assert_ne!(h, pack_hash(&keys, &vec![], 10, 21));
    assert_ne!(h, get_name(&keys, &vec![]));
}

#[test]
fn strip_prefix_follows_path_components() {
    let s = |x: &str| x.to_string();
    assert_eq!(strip_prefix(&s("/cache/a/b"), &s("/cache")), Some(s("a/b")));
    assert_eq!(strip_prefix(&s("/cache"), &s("/cache")), Some(s("")));
    assert_eq!(strip_prefix(&s("/cache/x"), &s("/cache/")), Some(s("x")));
    assert_eq!(strip_prefix(&s("/cache2/x"), &s("/cache")), None);
    assert_eq!(strip_prefix(&s("/ca"), &s("/cache")), None);
    assert_eq!(strip_prefix(&s("a/b"), &s("")), Some(s("a/b")));
    assert_eq!(strip_prefix(&s("/cache//x"), &s("/cache")), Some(s("x")));
    assert_eq!(strip_prefix(&s("/cache/./x/"), &s("/cache")), Some(s("x")));
    assert_eq!(strip_prefix(&s("/cache/x"), &s("/./cache")), Some(s("x")));
    assert_eq!(strip_prefix(&s("/x"), &s("")), Some(s("/x")));
    assert_eq!(strip_prefix(&s("x"), &s("/")), None);
    assert_eq!(strip_prefix(&s("./a/b"), &s("a")), None);
    assert_eq!(strip_prefix(&s("./a/b"), &s(".")), Some(s("a/b")));
}

#[test]
fn temp_path_moves_below_temp_root() {
    let s = |x: &str| x.to_string();
    assert_eq!(temp_path(&s("/cache"), &s("/temp"), &s("/cache/0/p")).ok(), Some(s("/temp/0/p")));
    assert_eq!(temp_path(&s("/cache"), &s("/temp"), &s("/cache")).ok(), Some(s("/temp/")));
    assert_eq!(temp_path(&s("/cache"), &s("/temp"), &s("/cache//x")).ok(), Some(s("/temp/x")));
    assert!(matches!(temp_path(&s("/cache"), &s("/temp"), &s("/other/p")), Err(StorageError::RelativePath)));
}

#[test]
fn get_temp_path_of_get_path() {
    let strategy = PackStrategy::new("/cache".to_string(), "/temp".to_string(), PackStorageFs::new());
    let p = strategy.get_path(&"scope/0/name".to_string());
    assert_eq!(p, "/cache/scope/0/name");
    assert_eq!(strategy.get_temp_path(&p).ok(), Some("/temp/scope/0/name".to_string()));
    let moves = strategy
        .temp_file_moves(&vec![p.clone(), "/cache/m".to_string()])
        .unwrap_or_else(|e| panic!("{}", e.to_string()));
    assert_eq!(
        moves,
        vec![
            ("/temp/scope/0/name".to_string(), p.clone()),
            ("/temp/m".to_string(), "/cache/m".to_string())
        ]
    );
    assert!(matches!(strategy.temp_file_moves(&vec!["/x".to_string()]), Err(StorageError::RelativePath)));
}

#[test]
fn check_meta_verdicts() {
    let meta = ScopeMeta {
        path: "/cache/s/cache_meta".to_string(),
        buckets: 1,
        max_pack_size: 16,
        last_modified: 100,
        packs: vec![vec![]],
    };
    match check_meta(&meta, 2, 16, 10, 500) {
        ValidateResult::Invalid(m) => assert_eq!(m, "scope options changed"),
        ValidateResult::Valid => panic!("options changed"),
    }
    match check_meta(&meta, 1, 17, 10, 500) {
        ValidateResult::Invalid(m) => assert_eq!(m, "scope options changed"),
        ValidateResult::Valid => panic!("options changed"),
    }
    match check_meta(&meta, 1, 16, 10, 111) {
        ValidateResult::Invalid(m) => assert_eq!(m, "scope expired"),
        ValidateResult::Valid => panic!("expired"),
    }
    assert!(matches!(check_meta(&meta, 1, 16, 10, 110), ValidateResult::Valid));
    assert!(matches!(check_meta(&meta, 1, 16, 10, 100), ValidateResult::Valid));
}

#[test]
fn scope_updates_last_write_wins() {
    let mut u = ScopeUpdates::new();
    let s = "scope".to_string();
    let t = "other".to_string();
    u.set(&s, b("k1"), b("v1"));
    u.set(&s, b("k1"), b("v2"));
    u.remove(&s, &b("k2"));
    u.set(&t, b("k1"), b("v3"));
    u.set(&s, b("k2"), b("v4"));
    u.remove(&s, &b("k1"));
    let taken = u.take(&s);
    assert_eq!(taken, vec![(b("k1"), None), (b("k2"), Some(b("v4")))]);
    assert_eq!(u.take(&s), Vec::<Update>::new());
    assert_eq!(u.take(&t), vec![(b("k1"), Some(b("v3")))]);
    assert_eq!(u.take(&"none".to_string()), Vec::<Update>::new());
}

#[test]
fn write_results_extend_as_sets() {
    let mut a = WriteScopeResult { writed_files: vec!["x".to_string()], removed_files: vec![] };
    a.extend(WriteScopeResult {
        writed_files: vec!["x".to_string(), "y".to_string(), "y".to_string()],
        removed_files: vec!["z".to_string()],
    });
    assert_eq!(a.writed_files, vec!["x".to_string(), "y".to_string()]);
    assert_eq!(a.removed_files, vec!["z".to_string()]);
}

#[test]
fn sort_keeps_items_and_orders_by_value_length() {
    let sorted = sort_by_value_len(vec![item("a", "ccc"), item("b", "a"), item("c", "bb"), item("d", "x")]);
    let lens: Vec<usize> = sorted.iter().map(|i| i.1.len()).collect();
    assert_eq!(lens, vec![1, 1, 2, 3]);
    let keys: HashSet<Vec<u8>> = sorted.into_iter().map(|i| i.0).collect();
    assert_eq!(keys, ["a", "b", "c", "d"].iter().map(|k| b(k)).collect());
}

#[test]
fn legacy_layout_packs_longest_first() {
    let items = vec![item("a", "1"), item("b", "22"), item("c", "333"), item("d", "666666")];
    let out = create_packs(&"/cache/s/0".to_string(), 10, items, SizeRule::Legacy);
    let keys: Vec<Vec<Vec<u8>>> = out.iter().map(|e| pack_keys(&e.1)).collect();
    assert_eq!(keys, vec![vec![b("d")], vec![b("c"), b("b"), b("a")]]);
    for (meta, pack) in out.iter() {
        assert!(is_hex16(&meta.name));
        assert_eq!(pack.path, format!("/cache/s/0/{}", meta.name));
        assert_eq!(meta.size, 0);
        assert!(!meta.writed);
        assert_eq!(meta.hash, "");
    }
}

#[test]
fn split_layout_packs_shortest_first() {
    let items = vec![item("a", "1"), item("b", "22"), item("c", "333"), item("d", "666666")];
    let out = create_packs(&"/cache/s/0".to_string(), 10, items, SizeRule::Split);
    let keys: Vec<Vec<Vec<u8>>> = out.iter().map(|e| pack_keys(&e.1)).collect();
    assert_eq!(keys, vec![vec![b("a"), b("b"), b("c")], vec![b("d")]]);
    let sizes: Vec<usize> = out.iter().map(|e| e.0.size).collect();
    assert_eq!(sizes, vec![9, 7]);
}

#[test]
fn split_layout_sets_heavy_items_apart() {
    // 5 * (1 + 8) = 45 > 4 * 10: the last item is big and gets a pack of its own
    let items = vec![item("a", "1"), item("b", "12345678")];
    let out = create_packs(&"/d".to_string(), 10, items, SizeRule::Split);
    let keys: Vec<Vec<Vec<u8>>> = out.iter().map(|e| pack_keys(&e.1)).collect();
    assert_eq!(keys, vec![vec![b("b")], vec![b("a")]]);
}

#[test]
fn legacy_layout_never_stalls() {
    // values longer than the maximal size still get packs
    let items = vec![item("a", "123456789012"), item("b", "1"), item("c", "")];
    let out = create_packs(&"/d".to_string(), 4, items, SizeRule::Legacy);
    let all: HashSet<Vec<u8>> = out.iter().flat_map(|e| pack_keys(&e.1)).collect();
    assert_eq!(all, ["a", "b", "c"].iter().map(|k| b(k)).collect());
}

#[test]
fn update_packs_repacks_touched_packs() {
    let dir = "/cache/s/0".to_string();
    let packs = create_packs(&dir, 10, vec![item("a", "1"), item("b", "22"), item("d", "666666")], SizeRule::Legacy);
    // legacy layout: [d], [b, a]
    let removed_path = packs[1].1.path.clone();
    let kept_path = packs[0].1.path.clone();
    let res = update_packs(&dir, 10, SizeRule::Legacy, packs, vec![(b("a"), Some(b("new"))), (b("z"), None)]);
    assert_eq!(res.removed_files, vec![removed_path]);
    assert_eq!(res.remain_packs.len(), 1);
    assert_eq!(res.remain_packs[0].1.path, kept_path);
    let new_items: HashMap<Vec<u8>, Vec<u8>> = res
        .new_packs
        .iter()
        .flat_map(|e| {
            let ks = pack_keys(&e.1);
            let cs = match &e.1.contents {
                PackContentsState::Value(c) => c.clone(),
                PackContentsState::Pending => panic!("values should be read"),
            };
            ks.into_iter().zip(cs)
        })
        .collect();
    assert_eq!(new_items, [(b("a"), b("new")), (b("b"), b("22"))].into_iter().collect());
}

#[test]
fn update_allowed_rejects_stalling_updates() {
    let mut scope = PackScope::empty_at("/cache/s".to_string(), options(1, 10), 0);
    assert!(shape_ok(&scope));
    assert!(!shape_ok(&PackScope::new("/cache/s".to_string(), options(1, 10))));
    let heavy = vec![(vec![b'k'; 20], Some(b("v"))), (b("x"), Some(b("abc")))];
    assert!(keys_computable(SizeRule::Split, &heavy));
    assert!(!update_allowed(SizeRule::Split, &scope, &heavy));
    assert!(update_allowed(SizeRule::Legacy, &scope, &heavy));
    let light = vec![(b("k"), Some(b("v"))), (b("x"), Some(b("abc")))];
    assert!(update_allowed(SizeRule::Split, &scope, &light));
    assert!(stall_free(SizeRule::Split, &vec![item("k", "v")], 10));
    let strategy = SplitPackStrategy::new("/cache".to_string(), "/temp".to_string());
    strategy.update_scope(&mut scope, light).unwrap_or_else(|e| panic!("{}", e.to_string()));
    assert_eq!(scope.get_contents().len(), 2);
}

#[test]
fn split_strategy_refuses_scope_not_loaded() {
    let strategy = SplitPackStrategy::new("/cache".to_string(), "/temp".to_string());
    let mut scope = PackScope::new("/cache/s".to_string(), options(1, 10));
    assert!(matches!(strategy.update_scope(&mut scope, vec![(b("k"), None)]), Err(StorageError::ScopeNotLoaded)));
    assert!(matches!(strategy.write_packs(&mut scope), Err(StorageError::ScopeNotLoaded)));
    assert!(matches!(strategy.write_meta(&scope), Err(StorageError::ScopeNotLoaded)));
    assert!(matches!(scope.meta, ScopeMetaState::Pending));
}

#[test]
fn write_packs_reports_mismatched_packs() {
    let strategy = SplitPackStrategy::new("/cache".to_string(), "/temp".to_string());
    let mut scope = PackScope::empty_at("/cache/s".to_string(), options(1, 10), 0);
    let bad = Pack {
        path: "/cache/s/0/bad".to_string(),
        keys: PackKeysState::Value(vec![b("k")]),
        contents: PackContentsState::Value(vec![]),
    };
    let outside = Pack {
        path: "/elsewhere/p".to_string(),
        keys: PackKeysState::Value(vec![b("k")]),
        contents: PackContentsState::Value(vec![b("v")]),
    };
    let meta = |n: &str| PackFileMeta { hash: String::new(), name: n.to_string(), size: 0, writed: false };
    if let (ScopeMetaState::Value(m), ScopePacksState::Value(p)) = (&mut scope.meta, &mut scope.packs) {
        m.packs[0].push(meta("bad"));
        m.packs[0].push(meta("p"));
        p[0].push(bad);
        p[0].push(outside);
    }
    scope.removed.push("/cache/s/0/old".to_string());
    let plan = strategy.write_packs(&mut scope).unwrap_or_else(|e| panic!("{}", e.to_string()));
    assert_eq!(plan.removed_files, vec!["/cache/s/0/old".to_string()]);
    assert!(scope.removed.is_empty());
    assert_eq!(plan.jobs.len(), 2);
    assert!(matches!(plan.jobs[0].write, Err(StorageError::PackLengthMismatch)));
    assert!(matches!(plan.jobs[1].write, Err(StorageError::RelativePath)));
}

#[test]
fn legacy_save_marks_every_pack_written() {
    let strategy = PackStrategy::new("/cache".to_string(), "/temp".to_string(), PackStorageFs::new());
    let mut scope = PackScope::empty_at("/cache/s".to_string(), options(2, 8), 42);
    let updates: Vec<Update> =
        (0..6).map(|i| (b(&format!("key{}", i)), Some(b(&format!("value{}", i))))).collect();
    update_scope(&mut scope, updates).unwrap_or_else(|e| panic!("{}", e.to_string()));
    assert_eq!(scope.get_contents().len(), 6);
    let plan = save_scope(&strategy, &mut scope);
    let mut files: HashMap<String, Vec<u8>> = HashMap::new();
    let mut stats = vec![];
    for (n, job) in plan.jobs.iter().enumerate() {
        let (temp, bytes) = job.write.as_ref().unwrap_or_else(|e| panic!("{}", e.to_string()));
        assert!(temp.starts_with("/temp/s/"));
        files.insert(temp.clone(), bytes.clone());
        stats.push(FileMeta { size: bytes.len() as u64, mtime: n as i64 });
    }
    let jobs = plan.jobs.len();
    let (meta_temp, meta_bytes, res) =
        finish_save_scope(&strategy, &mut scope, plan, stats).unwrap_or_else(|e| panic!("{}", e.to_string()));
    assert_eq!(meta_temp, "/temp/s/cache_meta");
    assert_eq!(res.writed_files.len(), jobs + 1);
    assert!(res.writed_files.contains(&"/cache/s/cache_meta".to_string()));
    let meta = match &scope.meta {
        ScopeMetaState::Value(m) => m,
        ScopeMetaState::Pending => panic!("meta should be read"),
    };
    assert!(meta.packs.iter().flatten().all(|m| m.writed && m.hash.len() == 16));
    // the meta file written reads back under the first layout
    let read = read_scope_meta(SizeRule::Legacy, &meta.path, Some(meta_bytes))
        .unwrap_or_else(|e| panic!("{}", e.to_string()))
        .expect("meta file exists");
    assert_eq!(read.buckets, 2);
    assert_eq!(read.last_modified, 42);
    let names: Vec<(String, String)> = read.packs.iter().flatten().map(|m| (m.name.clone(), m.hash.clone())).collect();
    let expected: Vec<(String, String)> = meta.packs.iter().flatten().map(|m| (m.name.clone(), m.hash.clone())).collect();
    assert_eq!(names, expected);

    // every pack file still matches its hash, until one changes
    let candidates = packs_to_validate(&scope, true);
    assert_eq!(candidates.len(), jobs);
    let stats: Vec<Option<FileMeta>> = (0..jobs)
        .map(|n| {
            let temp = candidates[n].path.replacen("/cache/", "/temp/", 1);
            files.get(&temp).map(|f| FileMeta { size: f.len() as u64, mtime: n as i64 })
        })
        .collect();
    assert!(matches!(packs_verdict(&candidates, &stats), ValidateResult::Valid));
    let mut changed = stats.clone();
    changed[0] = changed[0].map(|m| FileMeta { size: m.size, mtime: m.mtime + 1 });
    match packs_verdict(&candidates, &changed) {
        ValidateResult::Invalid(m) => assert_eq!(m, "packs is not validate"),
        ValidateResult::Valid => panic!("a changed file should not validate"),
    }
    let mut missing = stats.clone();
    missing[0] = None;
    assert!(matches!(packs_verdict(&candidates, &missing), ValidateResult::Invalid(_)));
    let c = &candidates[0];
    let st = stats[0].expect("file exists");
    assert!(validate_pack(&c.hash, &c.keys, &c.contents, &st));
}

#[test]
fn pack_meta_pairs_list_packs_in_order() {
    let mut scope = PackScope::empty_at("/cache/s".to_string(), options(2, 100), 0);
    let updates: Vec<Update> = (0..4).map(|i| (b(&format!("k{}", i)), Some(b("v")))).collect();
    update_scope(&mut scope, updates).unwrap_or_else(|e| panic!("{}", e.to_string()));
    let pairs = get_pack_meta_pairs(&scope);
    let (metas, packs) = match (&scope.meta, &scope.packs) {
        (ScopeMetaState::Value(m), ScopePacksState::Value(p)) => (&m.packs, p),
        _ => panic!("scope should be loaded"),
    };
    let mut expected = vec![];
    for (bucket, bucket_packs) in packs.iter().enumerate() {
        for (pos, pack) in bucket_packs.iter().enumerate() {
            expected.push((bucket, pos, metas[bucket][pos].name.clone(), pack.path.clone()));
        }
    }
    let got: Vec<(usize, usize, String, String)> =
        pairs.iter().map(|(bkt, pos, m, p)| (*bkt, *pos, m.name.clone(), p.path.clone())).collect();
    assert_eq!(got, expected);
}

#[test]
fn missing_meta_file_gives_empty_meta() {
    let scope = PackScope::new("/cache/s".to_string(), options(3, 100));
    let meta = read_meta_at(&scope, SizeRule::Split, None, 77).unwrap_or_else(|e| panic!("{}", e.to_string()));
    assert_eq!(meta.path, "/cache/s/cache_meta");
    assert_eq!(meta.buckets, 3);
    assert_eq!(meta.max_pack_size, 100);
    assert_eq!(meta.last_modified, 77);
    assert_eq!(meta.packs.len(), 3);
    assert!(meta.packs.iter().all(|b| b.is_empty()));
    assert_eq!(ScopeMeta::get_path(&"/cache/s".to_string()), "/cache/s/cache_meta");
}

#[test]
fn storage_options_hold_their_values() {
    let o = PackStorageOptions {
        root: "/cache".to_string(),
        temp_root: "/temp".to_string(),
        fs: PackFsType::Memory,
        buckets: 10,
        max_pack_size: 1000,
        expires: 60,
    };
    let strategy = SplitPackStrategy::new(o.root.clone(), o.temp_root.clone());
    assert_eq!(strategy.root, "/cache");
    assert_eq!(o.fs, PackFsType::Memory);
}

#[test]
fn update_allowed_looks_only_at_items_laid_out_anew() {
    let mut scope = PackScope::empty_at("/cache/s".to_string(), options(1, 32), 0);
    let strategy = SplitPackStrategy::new("/cache".to_string(), "/temp".to_string());
    // A heavy item with a short value gets a pack of its own, which stays.
    let first = vec![(vec![b'k'; 100], Some(b("v")))];
    assert!(update_allowed(SizeRule::Split, &scope, &first));
    strategy.update_scope(&mut scope, first).unwrap_or_else(|e| panic!("{}", e.to_string()));
    // A light item with a longer value is laid out alone: the kept pack plays
    // no part.
    let second = vec![(b("a"), Some(vec![b'x'; 10]))];
    assert!(update_allowed(SizeRule::Split, &scope, &second));
    strategy.update_scope(&mut scope, second).unwrap_or_else(|e| panic!("{}", e.to_string()));
    let contents = scope.get_contents();
    assert_eq!(contents.len(), 2);
    assert!(contents.contains(&(vec![b'k'; 100], b("v"))));
    assert!(contents.contains(&(b("a"), vec![b'x'; 10])));
}

#[test]
fn pending_updates_keep_the_last_call() {
    let mut u = ScopeUpdates::new();
    let scope = "s".to_string();
    let other = "t".to_string();
    u.set(&scope, b("k"), b("1"));
    u.remove(&scope, &b("j"));
    u.set(&other, b("k"), b("9"));
    u.set(&scope, b("k"), b("2"));
    u.set(&scope, b("j"), b("3"));
    u.remove(&other, &b("k"));
    let mut got = u.take(&scope);
    got.sort();
    assert_eq!(got, vec![(b("j"), Some(b("3"))), (b("k"), Some(b("2")))]);
    assert_eq!(u.take(&other), vec![(b("k"), None)]);
    assert!(u.take(&scope).is_empty());
}

#[test]
fn scopes_to_create_lists_new_scopes_in_order() {
    let mut u = ScopeUpdates::new();
    u.set(&"b".to_string(), b("k"), b("1"));
    u.set(&"a".to_string(), b("k"), b("1"));
    u.remove(&"c".to_string(), &b("k"));
    u.set(&"b".to_string(), b("j"), b("2"));
    assert_eq!(u.scopes_to_create(&vec!["a".to_string()]), vec!["b".to_string(), "c".to_string()]);
    assert_eq!(u.scopes_to_create(&vec![]), vec!["b".to_string(), "a".to_string(), "c".to_string()]);
}

#[test]
fn update_keys_distinct_finds_repeated_keys() {
    assert!(update_keys_distinct(&vec![]));
    assert!(update_keys_distinct(&vec![(b("a"), None), (b("b"), Some(b("1")))]));
    assert!(!update_keys_distinct(&vec![(b("a"), None), (b("b"), None), (b("a"), Some(b("1")))]));
}
