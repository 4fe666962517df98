use dupe_finder::cli::Cli;
use dupe_finder::prefs::{build_filter, effective_min_size, normalize_ext, prefs_to_save, union, Prefs};
use dupe_finder::scan::HashAlgo;

fn cli() -> Cli {
    Cli {
        root: ".".to_string(),
        target: "/tmp/dupe_finder_target".to_string(),
        min_size: None,
        include_patterns: vec![],
        ignore_names: vec![],
        ignore_exts: vec![],
        exclude_dirs: vec![],
        exclude_components: vec![],
        bind: None,
        no_browser: false,
        gui: false,
        save_prefs: false,
        no_prefs: false,
        dry_run: false,
        hash: "md5".to_string(),
    }
}

fn strings(v: &[&str]) -> Vec<String> {
    v.iter().map(|s| s.to_string()).collect()
}

#[test]
fn prefs_default_exclude_components_include_node_modules() {
    let p = Prefs::default_values();
    assert!(p.exclude_components.contains(&"node_modules".to_string()));
    assert!(p.exclude_components.contains(&"target".to_string()));
    assert!(p.exclude_components.contains(&".git".to_string()));
}

#[test]
fn prefs_default_bind_and_open_browser() {
    let p = Prefs::default_values();
    assert_eq!(p.bind, "127.0.0.1:8787");
    assert!(p.open_browser);
}

#[test]
fn prefs_default_ignore_names_include_ds_store() {
    let p = Prefs::default_values();
    assert!(p.ignore_names.contains(&".DS_Store".to_string()));
    assert!(p.ignore_names.contains(&"._*".to_string()));
    assert!(p.ignore_names.contains(&"Thumbs.db".to_string()));
    assert!(p.ignore_names.contains(&"desktop.ini".to_string()));
}

#[test]
fn prefs_defaults_in_full() {
    assert_eq!(
        Prefs::default_exclude_components(),
        strings(&[
            "node_modules", "target", ".git", ".svn", ".hg", "vendor", "__pycache__", ".venv", "venv", ".next",
            ".nuxt", ".cache", ".Trash",
        ])
    );
    assert_eq!(Prefs::default_ignore_names(), strings(&[".DS_Store", "._*", "Thumbs.db", "desktop.ini"]));
    assert_eq!(Prefs::default_bind(), "127.0.0.1:8787");
    assert!(Prefs::default_open_browser());
    let p = Prefs::default_values();
    assert!(p.exclude_dirs.is_empty() && p.ignore_exts.is_empty() && p.include_patterns.is_empty());
    assert_eq!(p.min_size, None);
}

#[test]
fn config_path_layout() {
    assert_eq!(Prefs::config_path_in("/home/u/.config"), "/home/u/.config/dupe_finder/prefs.json");
}

#[test]
fn union_keeps_order_and_skips_repeats() {
    let a = strings(&["x", "y"]);
    let b = strings(&["y", "z", "x", "w", "z"]);
    assert_eq!(union(&a, &b), strings(&["x", "y", "z", "w"]));
    assert_eq!(union(&a, &vec![]), a);
}

#[test]
fn save_merges_lists_and_overrides_scalars() {
    let mut p = Prefs::default_values();
    p.ignore_exts = strings(&["log"]);
    p.min_size = Some("1MB".to_string());
    let mut c = cli();
    c.ignore_exts = strings(&["tmp", "log"]);
    c.bind = Some("0.0.0.0:9000".to_string());
    c.no_browser = true;
    let s = prefs_to_save(&p, &c);
    assert_eq!(s.ignore_exts, strings(&["log", "tmp"]));
    assert_eq!(s.min_size, Some("1MB".to_string()));
    assert_eq!(s.bind, "0.0.0.0:9000");
    assert!(!s.open_browser);
    assert_eq!(s.exclude_components, p.exclude_components);
    c.min_size = Some("5KB".to_string());
    assert_eq!(prefs_to_save(&p, &c).min_size, Some("5KB".to_string()));
}

#[test]
fn min_size_command_line_first() {
    assert_eq!(effective_min_size(&Some("2KB".to_string()), &Some("1MB".to_string())), 2048);
    assert_eq!(effective_min_size(&None, &Some("1MB".to_string())), 1024 * 1024);
    assert_eq!(effective_min_size(&Some("junk".to_string()), &Some("1MB".to_string())), 0);
    assert_eq!(effective_min_size(&None, &None), 0);
}

#[test]
fn extensions_are_normalized() {
    assert_eq!(normalize_ext(".LOG"), "log");
    assert_eq!(normalize_ext("..Tmp"), "tmp");
    assert_eq!(normalize_ext("json"), "json");
}

#[test]
fn filter_combines_command_line_and_prefs() {
    let mut p = Prefs::default_values();
    p.ignore_exts = strings(&[".BAK"]);
    p.include_patterns = strings(&["*.png"]);
    let mut c = cli();
    c.include_patterns = strings(&["*.jpg", "a["]);
    c.exclude_components = strings(&["build"]);
    c.min_size = Some("1K".to_string());
    let (f, warnings) = build_filter(&c, &p, vec!["/x/skip".to_string()], HashAlgo::Sha256);
    assert_eq!(f.min_size, 1024);
    assert_eq!(f.include_globs.len(), 2);
    assert_eq!(f.include_globs[0].as_str(), "*.jpg");
    assert_eq!(f.include_globs[1].as_str(), "*.png");
    assert_eq!(f.ignore_name_globs.len(), 4);
    assert_eq!(f.ignore_exts, strings(&["bak"]));
    assert_eq!(f.exclude_components[0], "build");
    assert_eq!(f.exclude_components.len(), 14);
    assert_eq!(f.exclude_dirs, strings(&["/x/skip"]));
    assert_eq!(f.hash_algo, HashAlgo::Sha256);
    assert_eq!(
        warnings,
        strings(&["invalid --include glob 'a[': Pattern syntax error near position 1: invalid range pattern"])
    );
    assert!(f.admits("/y/photo.jpg", 2000));
    assert!(!f.admits("/y/photo.jpg", 10));
    assert!(!f.admits("/y/.DS_Store", 2000));
    assert!(!f.admits("/x/skip/photo.png", 2000));
}
