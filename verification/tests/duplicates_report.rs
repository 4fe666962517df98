use dupe_finder::backend::{extract_extension, group_duplicates, list_items, parse_u64, AFile, Config};

fn config() -> Config {
    Config {
        root_folder: "/data".to_string(),
        target_folder: "/out".to_string(),
        skip_folders: vec![".git".to_string(), "node_modules".to_string(), "/data/skip".to_string()],
        skip_filenames: vec![],
        min_file_size: 10,
        consider_extensions: vec!["jpg".to_string(), "png".to_string()],
    }
}

fn afile(path: &str) -> AFile {
    AFile {
        file_name: path.rsplit('/').next().unwrap().to_string(),
        file_size: 100,
        created: std::time::SystemTime::UNIX_EPOCH,
        chrono_created: chrono::NaiveDateTime::default(),
        path: path.to_string(),
    }
}

#[test]
fn extensions_of_names() {
    assert_eq!(extract_extension("photo.jpg"), "jpg");
    assert_eq!(extract_extension("archive.tar.gz"), "gz");
    assert_eq!(extract_extension("README"), "");
    assert_eq!(extract_extension("trailing."), "");
    assert_eq!(extract_extension(".bashrc"), "bashrc");
}

#[test]
fn considered_files() {
    let c = config();
    assert!(c.considers("/data/a/photo.jpg", "photo.jpg", 11));
    assert!(!c.considers("/data/a/photo.jpg", "photo.jpg", 10));
    assert!(!c.considers("/data/a/photo.gif", "photo.gif", 11));
    assert!(!c.considers("/data/.git/x.jpg", "x.jpg", 11), "a step named like a skip folder skips the file");
    assert!(!c.considers("/data/web/node_modules/pkg/logo.png", "logo.png", 11));
    assert!(!c.considers("/data/skip/y/x.jpg", "x.jpg", 11), "a file under a skip folder path is skipped");
    assert!(c.considers("/data/skipped/x.jpg", "x.jpg", 11), "skip folders match whole components");
    assert!(c.considers("/data/a.git/x.jpg", "x.jpg", 11));
}

#[test]
fn groups_of_shared_hashes_most_copies_first() {
    let hashes: Vec<String> = ["h1", "h2", "h1", "h3", "h2", "h2"].iter().map(|s| s.to_string()).collect();
    let files: Vec<AFile> = (0..6).map(|i| afile(&format!("/data/f{}.jpg", i))).collect();
    let groups = group_duplicates(&hashes, files);
    assert_eq!(groups.len(), 2);
    assert_eq!(groups[0].hash, "h2");
    assert_eq!(groups[0].cnt_duplicates, 3);
    let paths: Vec<&str> = groups[0].paths.iter().map(|f| f.path.as_str()).collect();
    assert_eq!(paths, vec!["/data/f1.jpg", "/data/f4.jpg", "/data/f5.jpg"]);
    assert_eq!(groups[1].hash, "h1");
    assert_eq!(groups[1].cnt_duplicates, 2);
}

#[test]
fn no_shared_hash_no_group() {
    let hashes: Vec<String> = vec!["a".to_string(), "b".to_string()];
    let files = vec![afile("/data/1.png"), afile("/data/2.png")];
    assert!(group_duplicates(&hashes, files).is_empty());
}

#[test]
fn list_settings_split_on_space_comma_semicolon() {
    assert_eq!(list_items(".git, node_modules;target  x"), vec![".git", "node_modules", "target", "x"]);
    assert_eq!(list_items(""), Vec::<String>::new());
    assert_eq!(list_items(" ,; "), Vec::<String>::new());
    assert_eq!(list_items("\tjpg\n,png"), vec!["jpg", "png"]);
}

#[test]
fn number_settings() {
    assert_eq!(parse_u64("1000000"), Some(1000000));
    assert_eq!(parse_u64("+7"), Some(7));
    assert_eq!(parse_u64("18446744073709551615"), Some(u64::MAX));
    assert_eq!(parse_u64("18446744073709551616"), None);
    assert_eq!(parse_u64(""), None);
    assert_eq!(parse_u64("+"), None);
    assert_eq!(parse_u64("-1"), None);
    assert_eq!(parse_u64(" 1"), None);
    assert_eq!(parse_u64("12a"), None);
}
