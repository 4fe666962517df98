use dupe_finder::model::{FileEntry, Folder};
use dupe_finder::move_files::{execute_move, move_non_kept, plan_move, unique_dest, RenameFailure};
use dupe_finder::path::{file_name, parent, path_starts_with};
use dupe_finder::scan::{scan_files, HashAlgo, ScanFilter};
use std::cell::RefCell;
use std::collections::{BTreeMap, BTreeSet};

/// A file system held in memory: files with their contents, and directories.
#[derive(Default)]
struct MemFs {
    files: RefCell<BTreeMap<String, Vec<u8>>>,
    dirs: RefCell<BTreeSet<String>>,
}

impl MemFs {
    fn write(&self, path: &str, data: &[u8]) {
        if let Some(p) = parent(path) {
            self.make_dirs(&p).unwrap();
        }
        self.files.borrow_mut().insert(path.to_string(), data.to_vec());
    }

    fn present(&self, path: &str) -> bool {
        self.files.borrow().contains_key(path) || self.dirs.borrow().contains(path)
    }

    fn make_dirs(&self, path: &str) -> Result<(), String> {
        let mut p = Some(path.to_string());
        while let Some(d) = p {
            if d.is_empty() || d == "/" {
                break;
            }
            if self.files.borrow().contains_key(&d) {
                return Err("File exists (os error 17)".to_string());
            }
            self.dirs.borrow_mut().insert(d.clone());
            p = parent(&d);
        }
        Ok(())
    }

    fn rename(&self, from: &str, to: &str) -> Result<(), RenameFailure> {
        let data = self.files.borrow_mut().remove(from);
        match data {
            Some(d) => {
                self.files.borrow_mut().insert(to.to_string(), d);
                Ok(())
            }
            None => Err(RenameFailure {
                cross_device: false,
                message: "No such file or directory (os error 2)".to_string(),
            }),
        }
    }

    fn copy_remove(&self, from: &str, to: &str) -> Result<(), String> {
        self.rename(from, to).map_err(|e| e.message)
    }

    fn scan(&self, root: &str, filter: &ScanFilter) -> Vec<Folder> {
        let walked: Vec<FileEntry> = self
            .files
            .borrow()
            .iter()
            .filter(|(p, _)| path_starts_with(p, root))
            .map(|(p, d)| FileEntry { path: p.clone(), size: d.len() as u64 })
            .collect();
        let read = |p: &str| -> Result<Vec<u8>, String> {
            self.files.borrow().get(p).cloned().ok_or_else(|| "No such file or directory (os error 2)".to_string())
        };
        scan_files(&walked, filter, &read)
    }
}

fn empty_filter() -> ScanFilter {
    ScanFilter {
        min_size: 0,
        include_globs: vec![],
        ignore_name_globs: vec![],
        ignore_exts: vec![],
        exclude_dirs: vec![],
        exclude_components: vec![],
        hash_algo: HashAlgo::Md5,
    }
}

fn move_all(fs: &MemFs, folders: &mut Vec<Folder>, root: &str, target: &str) -> (usize, Vec<String>) {
    move_non_kept(
        folders,
        root,
        target,
        &|p: &str| fs.present(p),
        &|p: &str| fs.make_dirs(p),
        &|a: &str, b: &str| fs.rename(a, b),
        &|a: &str, b: &str| fs.copy_remove(a, b),
    )
}

#[test]
fn unique_dest_no_conflict() {
    let fs = MemFs::default();
    fs.make_dirs("/tmp/u").unwrap();
    let dest = "/tmp/u/a.txt";
    assert_eq!(unique_dest(dest, &|p: &str| fs.present(p)), Some(dest.to_string()));
}

#[test]
fn unique_dest_with_extension() {
    let fs = MemFs::default();
    fs.write("/tmp/u/a.txt", b"x");
    let dest = unique_dest("/tmp/u/a.txt", &|p: &str| fs.present(p)).unwrap();
    assert_eq!(file_name(&dest).unwrap(), "a.txt.1");
    fs.write("/tmp/u/a.txt.1", b"x");
    let dest2 = unique_dest("/tmp/u/a.txt", &|p: &str| fs.present(p)).unwrap();
    assert_eq!(file_name(&dest2).unwrap(), "a.txt.2");
}

#[test]
fn unique_dest_no_extension() {
    let fs = MemFs::default();
    fs.write("/tmp/u/Makefile", b"x");
    let dest = unique_dest("/tmp/u/Makefile", &|p: &str| fs.present(p)).unwrap();
    assert_eq!(file_name(&dest).unwrap(), "Makefile.1");
}

#[test]
fn unique_dest_relative_name() {
    let taken = ["notes", "notes.1"];
    let dest = unique_dest("notes", &|p: &str| taken.contains(&p));
    assert_eq!(dest, Some("notes.2".to_string()));
}

#[test]
fn plan_move_excludes_kept_folders() {
    let fs = MemFs::default();
    let root = "/w";
    let target = "/w/target";
    fs.write("/w/keep_me/f.txt", b"dup-content");
    fs.write("/w/move_me/f.txt", b"dup-content");
    let mut folders = fs.scan(root, &empty_filter());
    for fv in folders.iter_mut() {
        if fv.folder.ends_with("keep_me") {
            fv.keep = true;
        }
    }
    let (plan, errors) = plan_move(&folders, root, target, &|p: &str| fs.present(p));
    assert!(errors.is_empty(), "{:?}", errors);
    assert_eq!(plan.len(), 1);
    assert!(plan[0].src.ends_with("move_me/f.txt"));
    assert!(plan[0].dest.ends_with("target/move_me/f.txt"));
}

#[test]
fn e2e_move_preserves_paths_and_no_overwrite() {
    let fs = MemFs::default();
    let root = "/w";
    let target = "/w/moved";
    let cargo = b"[package]\nname=\"x\"\nversion=\"0.1.0\"\n[dependencies]\n";
    let main = b"fn main(){}\n";
    for dir in ["prio", "excluded", "to_delete/prionon"] {
        fs.write(&format!("{}/{}/Cargo.toml", root, dir), cargo);
        fs.write(&format!("{}/{}/main.rs", root, dir), main);
    }
    let mut filter = empty_filter();
    filter.exclude_dirs.push(target.to_string());

    let mut folders = fs.scan(root, &filter);
    assert_eq!(folders.len(), 3, "expected prio/excluded/to_delete(prionon)");
    for fv in folders.iter_mut() {
        if fv.folder.ends_with("excluded") {
            fv.keep = true;
        }
    }
    let (moved, errors) = move_all(&fs, &mut folders, root, target);
    assert!(errors.is_empty(), "{:?}", errors);
    assert_eq!(moved, 4, "prio (Cargo.toml, main.rs) + to_delete/prionon (Cargo.toml, main.rs)");

    assert!(fs.present("/w/moved/prio/Cargo.toml"));
    assert!(fs.present("/w/moved/prio/main.rs"));
    assert!(fs.present("/w/moved/to_delete/prionon/Cargo.toml"));
    assert!(fs.present("/w/moved/to_delete/prionon/main.rs"));

    assert!(fs.present("/w/excluded/Cargo.toml"));
    assert!(fs.present("/w/excluded/main.rs"));
    assert!(!fs.present("/w/prio/Cargo.toml"));
    assert!(!fs.present("/w/to_delete/prionon/main.rs"));

    fs.write("/w/prio/Cargo.toml", cargo);
    fs.write("/w/to_delete/prionon/Cargo.toml", cargo);
    fs.write("/w/prio/main.rs", main);
    fs.write("/w/to_delete/prionon/main.rs", main);

    let mut folders2 = fs.scan(root, &filter);
    for fv in folders2.iter_mut() {
        if fv.folder.ends_with("excluded") {
            fv.keep = true;
        }
    }
    let (moved2, errors2) = move_all(&fs, &mut folders2, root, target);
    assert!(errors2.is_empty(), "{:?}", errors2);
    assert_eq!(moved2, 4);

    assert!(fs.present("/w/moved/prio/Cargo.toml"));
    assert!(fs.present("/w/moved/prio/Cargo.toml.1"));
    assert!(fs.present("/w/moved/to_delete/prionon/main.rs"));
    assert!(fs.present("/w/moved/to_delete/prionon/main.rs.1"));
}

#[test]
fn plan_move_uses_unique_dest_when_target_exists() {
    let fs = MemFs::default();
    let root = "/w";
    let target = "/w/moved";
    fs.write("/w/src/f.txt", b"dup");
    fs.write("/w/moved/src/f.txt", b"existing");
    let folders = vec![Folder {
        folder: "/w/src".to_string(),
        keep: false,
        files: vec![FileEntry { path: "/w/src/f.txt".to_string(), size: 3 }],
        total_size: 3,
    }];
    let (plan, errors) = plan_move(&folders, root, target, &|p: &str| fs.present(p));
    assert!(errors.is_empty(), "{:?}", errors);
    assert_eq!(plan.len(), 1);
    assert!(plan[0].dest.ends_with("moved/src/f.txt.1"), "got {}", plan[0].dest);
}

#[test]
fn move_collects_errors_for_missing_source() {
    let fs = MemFs::default();
    let root = "/w";
    let target = "/w/moved";
    let folders = vec![Folder {
        folder: "/w/src".to_string(),
        keep: false,
        files: vec![
            FileEntry { path: "/w/src/real.txt".to_string(), size: 3 },
            FileEntry { path: "/w/src/ghost.txt".to_string(), size: 0 },
        ],
        total_size: 3,
    }];
    fs.write("/w/src/real.txt", b"abc");
    let (plan, _) = plan_move(&folders, root, target, &|p: &str| fs.present(p));
    let (moved, errors) = execute_move(
        &plan,
        &|p: &str| fs.present(p),
        &|p: &str| fs.make_dirs(p),
        &|a: &str, b: &str| fs.rename(a, b),
        &|a: &str, b: &str| fs.copy_remove(a, b),
    );
    assert_eq!(moved, 1, "real.txt should move");
    assert_eq!(errors.len(), 1, "ghost.txt should error");
    assert!(errors[0].contains("ghost.txt"), "{}", errors[0]);
    assert_eq!(
        errors[0],
        "rename /w/src/ghost.txt failed: No such file or directory (os error 2)"
    );
}

#[test]
fn plan_move_reports_files_outside_root() {
    let folders = vec![Folder {
        folder: "/elsewhere".to_string(),
        keep: false,
        files: vec![FileEntry { path: "/elsewhere/f.txt".to_string(), size: 1 }],
        total_size: 1,
    }];
    let (plan, errors) = plan_move(&folders, "/w", "/w/moved", &|_p: &str| false);
    assert!(plan.is_empty());
    assert_eq!(errors, vec!["not under root: /elsewhere/f.txt".to_string()]);
}

#[test]
fn execute_move_reports_mkdir_failure() {
    let fs = MemFs::default();
    fs.write("/w/a.txt", b"1");
    fs.write("/w/blocker", b"not a dir");
    let plan = vec![dupe_finder::move_files::MovePlanItem {
        src: "/w/a.txt".to_string(),
        dest: "/w/blocker/a.txt".to_string(),
        size: 1,
    }];
    let (moved, errors) = execute_move(
        &plan,
        &|p: &str| fs.present(p),
        &|p: &str| fs.make_dirs(p),
        &|a: &str, b: &str| fs.rename(a, b),
        &|a: &str, b: &str| fs.copy_remove(a, b),
    );
    assert_eq!(moved, 0);
    assert_eq!(errors, vec!["mkdir /w/blocker failed: File exists (os error 17)".to_string()]);
}

#[test]
fn execute_move_copies_across_devices() {
    let fs = MemFs::default();
    fs.write("/w/a.txt", b"1");
    let plan = vec![dupe_finder::move_files::MovePlanItem {
        src: "/w/a.txt".to_string(),
        dest: "/other/a.txt".to_string(),
        size: 1,
    }];
    let (moved, errors) = execute_move(
        &plan,
        &|p: &str| fs.present(p),
        &|p: &str| fs.make_dirs(p),
        &|_a: &str, _b: &str| Err(RenameFailure { cross_device: true, message: "Invalid cross-device link (os error 18)".to_string() }),
        &|a: &str, b: &str| fs.copy_remove(a, b),
    );
    assert_eq!(moved, 1);
    assert!(errors.is_empty());
    assert!(fs.present("/other/a.txt"));
    assert!(!fs.present("/w/a.txt"));
}

#[test]
fn move_non_kept_keeps_only_kept_folders_listed() {
    let fs = MemFs::default();
    fs.write("/w/a/f.txt", b"same");
    fs.write("/w/b/f.txt", b"same");
    fs.write("/w/c/f.txt", b"same");
    let mut folders = fs.scan("/w", &empty_filter());
    folders[1].keep = true;
    let (moved, errors) = move_all(&fs, &mut folders, "/w", "/w/moved");
    assert_eq!(moved, 2);
    assert!(errors.is_empty());
    assert_eq!(folders.len(), 1);
    assert_eq!(folders[0].folder, "/w/b");
    let (plan, errors) = plan_move(&folders, "/w", "/w/moved", &|p: &str| fs.present(p));
    assert!(plan.is_empty() && errors.is_empty());
}

#[test]
fn keeping_every_folder_plans_nothing() {
    let fs = MemFs::default();
    fs.write("/w/a/f.txt", b"same");
    fs.write("/w/b/f.txt", b"same");
    let mut folders = fs.scan("/w", &empty_filter());
    for f in folders.iter_mut() {
        f.keep = true;
    }
    let (plan, errors) = plan_move(&folders, "/w", "/w/moved", &|p: &str| fs.present(p));
    assert!(plan.is_empty());
    assert!(errors.is_empty());
}
