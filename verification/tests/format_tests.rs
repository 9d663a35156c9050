use rspack_storage::error::{PackFsError, PackFsErrorOpt, StorageError};
use rspack_storage::fields::{join_bytes, split_bytes};
use rspack_storage::meta::{PackFileMeta, ScopeMeta};
use rspack_storage::meta_file::{meta_file_bytes, read_scope_meta};
use rspack_storage::pack_file::{pack_file_bytes, read_pack_contents, read_pack_keys};
use rspack_storage::packing::SizeRule;
use rspack_storage::reader::MemoryFileReader;
use rspack_storage::text::{ParseFault, decimal_bytes, decimal_u64, hex16, join_path, parse_unsigned, usize_to_string};

fn bytes_of(v: &[&str]) -> Vec<Vec<u8>> {
    v.iter().map(|s| s.as_bytes().to_vec()).collect()
}

fn sample_meta() -> ScopeMeta {
    ScopeMeta {
        path: "/cache/scope/cache_meta".to_string(),
        buckets: 2,
        max_pack_size: 10,
        last_modified: 5,
        packs: vec![
            vec![
                PackFileMeta { hash: "h1".to_string(), name: "a".to_string(), size: 3, writed: true },
                PackFileMeta { hash: "h2".to_string(), name: "b".to_string(), size: 40, writed: false },
            ],
            vec![],
        ],
    }
}

#[test]
fn pack_file_layout_is_exact() {
    let bytes = pack_file_bytes(&bytes_of(&["ab", "c"]), &bytes_of(&["x", "yz"]));
    assert_eq!(bytes, b"2 1\n1 2\nabcxyz".to_vec());
}

#[test]
fn pack_file_reads_back_keys_and_values() {
    let keys = bytes_of(&["key_0", "", "a much longer key"]);
    let contents = bytes_of(&["v", "value with\nnewline", ""]);
    let bytes = pack_file_bytes(&keys, &contents);
    let path = "/cache/0/p".to_string();
    let read_keys = read_pack_keys(&path, Some(bytes.clone())).unwrap_or_else(|e| panic!("{}", e.to_string()));
    assert_eq!(read_keys, Some(keys));
    let read_contents = read_pack_contents(&path, Some(bytes)).unwrap_or_else(|e| panic!("{}", e.to_string()));
    assert_eq!(read_contents, Some(contents));
}

#[test]
fn missing_pack_file_reads_as_none() {
    let path = "/cache/0/none".to_string();
    assert!(matches!(read_pack_keys(&path, None), Ok(None)));
    assert!(matches!(read_pack_contents(&path, None), Ok(None)));
}

#[test]
fn pack_file_with_broken_utf8_line_fails_to_read() {
    let path = "/cache/0/bad".to_string();
    match read_pack_keys(&path, Some(vec![0xff, b'\n'])) {
        Err(StorageError::Fs(e)) => {
            assert_eq!(e.file, path);
            assert_eq!(e.opt, PackFsErrorOpt::Read);
            assert_eq!(e.inner, "stream did not contain valid UTF-8");
        }
        other => panic!("unexpected {:?}", other),
    }
}

#[test]
fn truncated_pack_file_fails_to_read() {
    let path = "/cache/0/short".to_string();
    match read_pack_keys(&path, Some(b"3\n1\nab".to_vec())) {
        Err(StorageError::Fs(e)) => {
            assert_eq!(e.opt, PackFsErrorOpt::Read);
            assert_eq!(e.inner, "failed to fill whole buffer");
        }
        other => panic!("unexpected {:?}", other),
    }
    match read_pack_contents(&path, Some(b"1\n5\nkab".to_vec())) {
        Err(StorageError::Fs(e)) => assert_eq!(e.inner, "failed to fill whole buffer"),
        other => panic!("unexpected {:?}", other),
    }
}

#[test]
fn meta_file_layout_is_exact() {
    let meta = sample_meta();
    assert_eq!(meta_file_bytes(SizeRule::Split, &meta), b"2 10 5\na,h1,3 b,h2,40\n\n".to_vec());
    assert_eq!(meta_file_bytes(SizeRule::Legacy, &meta), b"2 10 5\na,h1 b,h2\n\n".to_vec());
}

#[test]
fn meta_file_reads_back() {
    let meta = sample_meta();
    let path = meta.path.clone();
    let read = read_scope_meta(SizeRule::Split, &path, Some(meta_file_bytes(SizeRule::Split, &meta)))
        .unwrap_or_else(|e| panic!("{}", e.to_string()))
        .expect("meta file exists");
    assert_eq!(read.path, path);
    assert_eq!(read.buckets, 2);
    assert_eq!(read.max_pack_size, 10);
    assert_eq!(read.last_modified, 5);
    assert_eq!(read.packs.len(), 2);
    let first: Vec<(String, String, usize, bool)> =
        read.packs[0].iter().map(|m| (m.name.clone(), m.hash.clone(), m.size, m.writed)).collect();
    assert_eq!(
        first,
        vec![("a".to_string(), "h1".to_string(), 3, true), ("b".to_string(), "h2".to_string(), 40, true)]
    );
    assert!(read.packs[1].is_empty());

    let legacy = read_scope_meta(SizeRule::Legacy, &path, Some(meta_file_bytes(SizeRule::Legacy, &meta)))
        .unwrap_or_else(|e| panic!("{}", e.to_string()))
        .expect("meta file exists");
    let sizes: Vec<usize> = legacy.packs.iter().flatten().map(|m| m.size).collect();
    assert_eq!(sizes, vec![0, 0]);
    let names: Vec<String> = legacy.packs.iter().flatten().map(|m| m.name.clone()).collect();
    assert_eq!(names, vec!["a".to_string(), "b".to_string()]);
}

#[test]
fn meta_file_errors() {
    let path = "/cache/scope/cache_meta".to_string();
    assert!(matches!(read_scope_meta(SizeRule::Split, &path, None), Ok(None)));
    assert!(matches!(
        read_scope_meta(SizeRule::Split, &path, Some(b"x 1 2\n".to_vec())),
        Err(StorageError::MetaParse(ParseFault::InvalidDigit))
    ));
    let why = |data: &[u8]| match read_scope_meta(SizeRule::Legacy, &path, Some(data.to_vec())) {
        Err(e) => e.to_string(),
        Ok(_) => panic!("should fail"),
    };
    assert_eq!(why(b"1 x 2\n"), "parse meta file failed: invalid digit found in string");
    assert_eq!(why(b"1  2 3\n"), "parse meta file failed: cannot parse integer from empty string");
    assert_eq!(why(b"99999999999999999999 1 2\n"), "parse meta file failed: number too large to fit in target type");
    assert_eq!(why(b"1 2 + 3x\n"), "parse meta file failed: invalid digit found in string");
    assert_eq!(why(b"99999999999999999999x 1 2\n"), "parse meta file failed: number too large to fit in target type");
    assert_eq!(why(b"1 2\n"), "meta broken");
    assert!(matches!(read_scope_meta(SizeRule::Legacy, &path, Some(b"+1 2 3\n\n".to_vec())), Ok(Some(_))));
    assert!(matches!(
        read_scope_meta(SizeRule::Split, &path, Some(b"1 2\n".to_vec())),
        Err(StorageError::MetaBroken)
    ));
    assert!(matches!(
        read_scope_meta(SizeRule::Split, &path, Some(b"1 2 3\na,h\n".to_vec())),
        Err(StorageError::PackInfo)
    ));
    assert!(matches!(
        read_scope_meta(SizeRule::Split, &path, Some(b"1 2 3\na,h,zz\n".to_vec())),
        Err(StorageError::PackInfo)
    ));
    assert!(matches!(
        read_scope_meta(SizeRule::Split, &path, Some(vec![0xff, b'\n'])),
        Err(StorageError::Fs(_))
    ));
    // a bucket line that does not read is an error even after good lines
    assert!(matches!(
        read_scope_meta(SizeRule::Split, &path, Some(b"2 2 3\na,h,1\n\xff\n".to_vec())),
        Err(StorageError::Fs(_))
    ));
}

#[test]
fn meta_file_missing_bucket_lines_read_empty() {
    let path = "/cache/scope/cache_meta".to_string();
    let meta = read_scope_meta(SizeRule::Legacy, &path, Some(b"3 16 7\nn,h\n".to_vec()))
        .unwrap_or_else(|e| panic!("{}", e.to_string()))
        .expect("meta file exists");
    assert_eq!(meta.buckets, 3);
    assert_eq!(meta.packs.iter().map(|b| b.len()).collect::<Vec<_>>(), vec![1, 0, 0]);
    // fields without a comma are not entries
    let meta = read_scope_meta(SizeRule::Legacy, &path, Some(b"1 16 7\nplain n,h\n".to_vec()))
        .unwrap_or_else(|e| panic!("{}", e.to_string()))
        .expect("meta file exists");
    assert_eq!(meta.packs[0].len(), 1);
    assert_eq!(meta.packs[0][0].name, "n");
}

#[test]
fn reader_lines_drop_their_last_character() {
    let mut r = MemoryFileReader::new(b"ab\ncd".to_vec());
    assert_eq!(r.line(), Ok(b"ab".to_vec()));
    // the last line has no newline: its last character goes, as `String::pop` takes it
    assert_eq!(r.line(), Ok(b"c".to_vec()));
    assert_eq!(r.line(), Ok(vec![]));
    let mut r = MemoryFileReader::new("é\n".as_bytes().to_vec());
    assert_eq!(r.line(), Ok("é".as_bytes().to_vec()));
    let mut r = MemoryFileReader::new("xé".as_bytes().to_vec());
    assert_eq!(r.line(), Ok(b"x".to_vec()));
}

#[test]
fn reader_bytes_and_skip() {
    let mut r = MemoryFileReader::new(b"abcdef".to_vec());
    assert_eq!(r.bytes(2), Ok(b"ab".to_vec()));
    r.skip(1);
    assert_eq!(r.bytes(3), Ok(b"def".to_vec()));
    assert_eq!(r.bytes(1), Err(()));
    assert_eq!(r.bytes(0), Ok(vec![]));
    r.skip(usize::MAX);
    assert_eq!(r.pos, usize::MAX);
}

#[test]
fn text_helpers() {
    assert_eq!(hex16(255), "00000000000000ff");
    assert_eq!(hex16(u64::MAX), "ffffffffffffffff");
    assert_eq!(decimal_bytes(1234), b"1234".to_vec());
    assert_eq!(decimal_bytes(0), b"0".to_vec());
    assert_eq!(decimal_u64(u64::MAX), u64::MAX.to_string().as_bytes().to_vec());
    assert_eq!(usize_to_string(42), "42");
    assert_eq!(parse_unsigned(b"+12", u64::MAX), Some(12));
    assert_eq!(parse_unsigned(b"", u64::MAX), None);
    assert_eq!(parse_unsigned(b"+", u64::MAX), None);
    assert_eq!(parse_unsigned(b"1a", u64::MAX), None);
    assert_eq!(parse_unsigned(b"256", 255), None);
    assert_eq!(parse_unsigned(b"18446744073709551615", u64::MAX), Some(u64::MAX));
    assert_eq!(parse_unsigned(b"18446744073709551616", u64::MAX), None);
    assert_eq!(join_path(&"/a".to_string(), &"b".to_string()), "/a/b");
    assert_eq!(join_path(&"/a/".to_string(), &"b".to_string()), "/a/b");
    assert_eq!(join_path(&"/a".to_string(), &"/b".to_string()), "/b");
    assert_eq!(join_path(&"".to_string(), &"b".to_string()), "b");
}

#[test]
fn fields_split_and_join() {
    assert_eq!(split_bytes(b"a,,b", b','), bytes_of(&["a", "", "b"]));
    assert_eq!(split_bytes(b"", b','), bytes_of(&[""]));
    assert_eq!(join_bytes(&bytes_of(&["a", "", "b"]), b','), b"a,,b".to_vec());
    assert_eq!(join_bytes(&vec![], b','), Vec::<u8>::new());
}

#[test]
fn error_messages() {
    assert_eq!(PackFsErrorOpt::Dir.to_string(), "create dir");
    assert_eq!(PackFsErrorOpt::Stat.to_string(), "stat");
    let e = PackFsError::new(&"/f".to_string(), PackFsErrorOpt::Read, "boom".to_string());
    assert_eq!(e.to_string(), "Rspack Storage FS Error: read `/f` failed with `boom`");
    assert_eq!(StorageError::Fs(e).to_string(), "Rspack Storage FS Error: read `/f` failed with `boom`");
    let e = PackFsError::new(
        &"/parent/from/not_exist.txt".to_string(),
        PackFsErrorOpt::Stat,
        "IO error: file not exist".to_string(),
    );
    assert_eq!(
        e.to_string(),
        "Rspack Storage FS Error: stat `/parent/from/not_exist.txt` failed with `IO error: file not exist`"
    );
    assert_eq!(e.code(), "PackFsError");
    let e = PackFsError::new(&"/cache/0/abc".to_string(), PackFsErrorOpt::Dir, "denied".to_string());
    assert_eq!(e.to_string(), "Rspack Storage FS Error: create dir `/cache/0/abc` failed with `denied`");
    assert_eq!(StorageError::ScopeNotLoaded.to_string(), "scope not loaded, run `get_all` first");
    assert_eq!(StorageError::PackLengthMismatch.to_string(), "pack keys and contents length not match");
    assert_eq!(StorageError::RelativePath.to_string(), "failed to get relative path: prefix not found");
    assert_eq!(
        StorageError::MetaParse(ParseFault::InvalidDigit).to_string(),
        "parse meta file failed: invalid digit found in string"
    );
    // the same reasons as the standard parser gives
    assert_eq!(ParseFault::Empty.to_string(), "".parse::<u64>().unwrap_err().to_string());
    assert_eq!(ParseFault::InvalidDigit.to_string(), "1x".parse::<u64>().unwrap_err().to_string());
    assert_eq!(ParseFault::PosOverflow.to_string(), "99999999999999999999".parse::<u64>().unwrap_err().to_string());
    assert_eq!(StorageError::MetaBroken.to_string(), "meta broken");
    assert_eq!(StorageError::PackInfo.to_string(), "parse pack file info failed");
    assert_eq!(StorageError::Clock.to_string(), "get current time failed");
}

#[test]
fn parse_faults_match_the_standard_parser() {
    for s in ["", "+", "-", "-1", "+12", "12a", "a12", "18446744073709551615", "18446744073709551616", "99999999999999999999x", "1 2"] {
        let ours = rspack_storage::text::parse_unsigned_why(s.as_bytes(), u64::MAX).map_err(|f| f.to_string());
        let std = s.parse::<u64>().map_err(|e| e.to_string());
        assert_eq!(ours, std, "for {:?}", s);
    }
}
