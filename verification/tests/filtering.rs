use dupe_finder::digest::digest_hex;
use dupe_finder::model::{FileEntry, Folder};
use dupe_finder::scan::{duplicate_folders, entries_fit, scan_files, size_prefilter, Glob, HashAlgo, HashedFile, ScanFilter};
use std::collections::BTreeMap;

fn empty_filter() -> ScanFilter {
    ScanFilter {
        min_size: 0,
        include_globs: vec![],
        ignore_name_globs: vec![],
        ignore_exts: vec![],
        exclude_dirs: vec![],
        exclude_components: vec![],
        hash_algo: HashAlgo::Md5,
    }
}

fn glob(p: &str) -> Glob {
    Glob::new(p).unwrap()
}

/// A scan of an in-memory tree of files (path -> contents) under `root`.
fn scan_tree(tree: &BTreeMap<String, Vec<u8>>, root: &str, filter: &ScanFilter) -> Vec<Folder> {
    let walked: Vec<FileEntry> = tree
        .iter()
        .filter(|(p, _)| dupe_finder::path::path_starts_with(p, root))
        .map(|(p, d)| FileEntry { path: p.clone(), size: d.len() as u64 })
        .collect();
    let read = |p: &str| -> Result<Vec<u8>, String> { tree.get(p).cloned().ok_or_else(|| "not found".to_string()) };
    scan_files(&walked, filter, &read)
}

fn tree(files: &[(&str, &[u8])]) -> BTreeMap<String, Vec<u8>> {
    files.iter().map(|(p, d)| (p.to_string(), d.to_vec())).collect()
}

#[test]
fn excluded_by_dir_prefix() {
    let mut f = empty_filter();
    f.exclude_dirs = vec!["/Users/foo/secret".to_string()];
    assert!(f.excluded("/Users/foo/secret/a.txt"));
    assert!(f.excluded("/Users/foo/secret/sub/b.txt"));
    assert!(!f.excluded("/Users/foo/public/a.txt"));
}

#[test]
fn excluded_by_component_name() {
    let mut f = empty_filter();
    f.exclude_components = vec!["node_modules".into(), "target".into()];
    assert!(f.excluded("/proj/node_modules/pkg/index.js"));
    assert!(f.excluded("/proj/target/debug/exe"));
    assert!(!f.excluded("/proj/src/main.rs"));
    assert!(f.excluded("/proj/target"));
}

#[test]
fn excluded_neither() {
    let f = empty_filter();
    assert!(!f.excluded("/anywhere/file.txt"));
}

#[test]
fn excluded_dir_prefix_matches_whole_components() {
    let mut f = empty_filter();
    f.exclude_dirs = vec!["/data/secret".to_string()];
    assert!(!f.excluded("/data/secrets/a.txt"));
    assert!(f.excluded("/data/secret"));
    assert!(f.excluded("/data//secret/./x"));
}

#[test]
fn accepts_min_size() {
    let mut f = empty_filter();
    f.min_size = 100;
    assert!(!f.accepts("/x/a.txt", 50));
    assert!(f.accepts("/x/a.txt", 150));
    assert!(f.accepts("/x/a.txt", 100));
}

#[test]
fn accepts_ignore_name_glob() {
    let mut f = empty_filter();
    f.ignore_name_globs = vec![glob("thumb*")];
    assert!(!f.accepts("/x/thumb_1.jpg", 10));
    assert!(f.accepts("/x/photo.jpg", 10));
}

#[test]
fn accepts_ignore_ext() {
    let mut f = empty_filter();
    f.ignore_exts = vec!["log".into(), "tmp".into()];
    assert!(!f.accepts("/x/debug.log", 10));
    assert!(!f.accepts("/x/cache.TMP", 10));
    assert!(f.accepts("/x/data.json", 10));
}

#[test]
fn accepts_include_glob() {
    let mut f = empty_filter();
    f.include_globs = vec![glob("*.jpg"), glob("*.png")];
    assert!(f.accepts("/x/photo.jpg", 10));
    assert!(f.accepts("/x/photo.png", 10));
    assert!(!f.accepts("/x/photo.gif", 10));
}

#[test]
fn admits_needs_both_tests() {
    let mut f = empty_filter();
    f.exclude_components = vec!["node_modules".into()];
    f.min_size = 5;
    assert!(f.admits("/p/a.txt", 5));
    assert!(!f.admits("/p/a.txt", 4));
    assert!(!f.admits("/p/node_modules/a.txt", 5));
}

#[test]
fn glob_errors_are_reported() {
    let e = Glob::new("a[").unwrap_err();
    assert_eq!(e.message(), "Pattern syntax error near position 1: invalid range pattern");
    let g = glob("*.txt");
    assert_eq!(g.as_str(), "*.txt");
    assert!(g.matches("notes.txt"));
    assert!(!g.matches("notes.md"));
}

#[test]
fn hash_algo_parse_valid() {
    assert_eq!(HashAlgo::parse("md5"), Ok(HashAlgo::Md5));
    assert_eq!(HashAlgo::parse("MD5"), Ok(HashAlgo::Md5));
    assert_eq!(HashAlgo::parse("xxhash"), Ok(HashAlgo::Xxhash));
    assert_eq!(HashAlgo::parse("xxh64"), Ok(HashAlgo::Xxhash));
    assert_eq!(HashAlgo::parse("sha256"), Ok(HashAlgo::Sha256));
    assert_eq!(HashAlgo::parse(" SHA256 "), Ok(HashAlgo::Sha256));
}

#[test]
fn hash_algo_parse_invalid() {
    assert!(HashAlgo::parse("crc32").is_err());
    assert!(HashAlgo::parse("").is_err());
    assert!(HashAlgo::parse("sha1").is_err());
}

#[test]
fn hash_algo_as_str() {
    assert_eq!(HashAlgo::Md5.as_str(), "md5");
    assert_eq!(HashAlgo::Xxhash.as_str(), "xxhash");
    assert_eq!(HashAlgo::Sha256.as_str(), "sha256");
}

#[test]
fn hash_algo_names_round_trip_and_errors() {
    for a in [HashAlgo::Md5, HashAlgo::Xxhash, HashAlgo::Sha256] {
        assert_eq!(HashAlgo::parse(a.as_str()), Ok(a));
    }
    assert_eq!(HashAlgo::parse("XXH"), Ok(HashAlgo::Xxhash));
    assert_eq!(HashAlgo::parse("Sha2-256"), Ok(HashAlgo::Sha256));
    assert_eq!(
        HashAlgo::parse(" CRC32 "),
        Err("unknown hash 'crc32': expected md5, xxhash, or sha256".to_string())
    );
}

#[test]
fn digests_of_known_inputs() {
    assert_eq!(digest_hex(HashAlgo::Md5, b""), "d41d8cd98f00b204e9800998ecf8427e");
    assert_eq!(digest_hex(HashAlgo::Md5, b"abc"), "900150983cd24fb0d6963f7d28e17f72");
    assert_eq!(
        digest_hex(HashAlgo::Sha256, b"abc"),
        "ba7816bf8f01cfea414140de5dae2223b00361a396177a9cb410ff61f20015ad"
    );
    assert_eq!(digest_hex(HashAlgo::Xxhash, b""), "ef46db3751d8e999");
    for data in [&b""[..], &b"a"[..], &b"hello world"[..]] {
        assert_eq!(digest_hex(HashAlgo::Md5, data).len(), 32);
        assert_eq!(digest_hex(HashAlgo::Xxhash, data).len(), 16);
        assert_eq!(digest_hex(HashAlgo::Sha256, data).len(), 64);
    }
}

#[test]
fn size_prefilter_keeps_shared_sizes_in_order() {
    let files = vec![
        FileEntry { path: "/a".into(), size: 3 },
        FileEntry { path: "/b".into(), size: 4 },
        FileEntry { path: "/c".into(), size: 3 },
        FileEntry { path: "/d".into(), size: 5 },
        FileEntry { path: "/e".into(), size: 3 },
    ];
    let kept: Vec<String> = size_prefilter(&files).into_iter().map(|f| f.path).collect();
    assert_eq!(kept, vec!["/a", "/c", "/e"]);
}

#[test]
fn duplicate_folders_groups_and_sorts() {
    let h = |p: &str, size: u64, d: &str| HashedFile { file: FileEntry { path: p.into(), size }, digest: d.into() };
    let hashed = vec![
        h("/r/b/y.txt", 2, "11"),
        h("/r/a/z.txt", 2, "11"),
        h("/r/a/x.txt", 2, "11"),
        h("/r/c/u.txt", 2, "22"),
    ];
    let folders = duplicate_folders(&hashed);
    assert_eq!(folders.len(), 2);
    assert_eq!(folders[0].folder, "/r/a");
    assert_eq!(folders[0].files.len(), 2);
    assert_eq!(folders[0].files[0].path, "/r/a/x.txt");
    assert_eq!(folders[0].files[1].path, "/r/a/z.txt");
    assert_eq!(folders[0].total_size, 4);
    assert_eq!(folders[1].folder, "/r/b");
    assert!(folders.iter().all(|f| !f.keep));
}

#[test]
fn scan_finds_duplicate_folders() {
    let t = tree(&[
        ("/t/a/x.txt", b"hello-world-duplicate"),
        ("/t/b/x.txt", b"hello-world-duplicate"),
        ("/t/c/sub/x.txt", b"hello-world-duplicate"),
        ("/t/a/unique.txt", b"unique-content-not-a-dup"),
    ]);
    let folders = scan_tree(&t, "/t", &empty_filter());
    let folder_names: Vec<String> = folders.iter().map(|f| f.folder.clone()).collect();
    assert_eq!(folders.len(), 3, "expected 3 folders, got {:?}", folder_names);
    for fv in &folders {
        assert_eq!(fv.files.len(), 1, "folder {} should have 1 file", fv.folder);
        assert!(fv.files[0].path.ends_with("x.txt"));
    }
    assert!(folders.iter().all(|f| !f.keep));
}

#[test]
fn scan_no_duplicates_returns_empty() {
    let t = tree(&[("/t/a/one.txt", b"content-one"), ("/t/b/two.txt", b"content-two-different")]);
    let folders = scan_tree(&t, "/t", &empty_filter());
    assert!(folders.is_empty(), "expected no duplicate folders, got {:?}", folders);
}

#[test]
fn scan_excludes_target_folder() {
    let t = tree(&[
        ("/t/a/x.txt", b"dup"),
        ("/t/b/x.txt", b"dup"),
        ("/t/moved_here/x.txt", b"dup"),
    ]);
    let mut filter = empty_filter();
    filter.exclude_dirs.push("/t/moved_here".to_string());
    let folders = scan_tree(&t, "/t", &filter);
    assert_eq!(folders.len(), 2);
    assert!(folders.iter().all(|f| !f.folder.ends_with("moved_here")));
}

#[test]
fn all_hash_algos_find_same_duplicates() {
    let t = tree(&[
        ("/t/a/dup.txt", b"identical-content"),
        ("/t/b/dup.txt", b"identical-content"),
        ("/t/a/uniq.txt", b"unique"),
    ]);
    for algo in [HashAlgo::Md5, HashAlgo::Xxhash, HashAlgo::Sha256] {
        let mut filter = empty_filter();
        filter.hash_algo = algo;
        let folders = scan_tree(&t, "/t", &filter);
        assert_eq!(
            folders.len(),
            2,
            "algo {:?} found {:?} folders",
            algo,
            folders.iter().map(|f| &f.folder).collect::<Vec<_>>()
        );
    }
}

#[test]
fn same_size_different_content_is_not_a_duplicate() {
    let t = tree(&[("/t/a/p.bin", b"aaaa"), ("/t/b/q.bin", b"bbbb")]);
    assert!(scan_tree(&t, "/t", &empty_filter()).is_empty());
}

#[test]
fn scan_skips_unreadable_files_and_filters_first() {
    let mut t = tree(&[
        ("/t/a/x.txt", b"same"),
        ("/t/b/x.txt", b"same"),
        ("/t/c/x.txt", b"same"),
        ("/t/d/x.log", b"same"),
    ]);
    let walked: Vec<FileEntry> = t.iter().map(|(p, d)| FileEntry { path: p.clone(), size: d.len() as u64 }).collect();
    t.remove("/t/c/x.txt");
    let mut filter = empty_filter();
    filter.ignore_exts = vec!["log".to_string()];
    let read = |p: &str| -> Result<Vec<u8>, String> { t.get(p).cloned().ok_or_else(|| "gone".to_string()) };
    let folders = scan_files(&walked, &filter, &read);
    let names: Vec<&str> = folders.iter().map(|f| f.folder.as_str()).collect();
    assert_eq!(names, vec!["/t/a", "/t/b"]);
}

#[test]
fn walked_sizes_must_fit() {
    let small = vec![FileEntry { path: "/a".into(), size: 1 }, FileEntry { path: "/b".into(), size: 2 }];
    assert!(entries_fit(&small));
    let huge = vec![FileEntry { path: "/a".into(), size: u64::MAX }, FileEntry { path: "/b".into(), size: 1 }];
    assert!(!entries_fit(&huge));
}
