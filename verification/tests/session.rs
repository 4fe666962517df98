use dupe_finder::model::{AppState, FileEntry, Folder};
use dupe_finder::session::{count_kept, mark_all, mark_subtree, move_blocked, move_marked, preview_move, state_summary};
use dupe_finder::move_files::RenameFailure;

fn folder(path: &str, keep: bool, files: &[(&str, u64)]) -> Folder {
    let files: Vec<FileEntry> = files.iter().map(|(p, s)| FileEntry { path: p.to_string(), size: *s }).collect();
    let total_size = files.iter().map(|f| f.size).sum();
    Folder { folder: path.to_string(), keep, files, total_size }
}

fn sample() -> Vec<Folder> {
    vec![
        folder("/r/a", false, &[("/r/a/x.txt", 10)]),
        folder("/r/a/sub", false, &[("/r/a/sub/x.txt", 10), ("/r/a/sub/y.txt", 5)]),
        folder("/r/ab", false, &[("/r/ab/y.txt", 5)]),
    ]
}

#[test]
fn summary_counts_folders_files_bytes() {
    let mut f = sample();
    f[2].keep = true;
    assert_eq!(state_summary(&f), (1, 4, 30));
    assert_eq!(count_kept(&f), 1);
}

#[test]
fn marking_a_folder_marks_its_subfolders() {
    let mut f = sample();
    let canonical: Vec<String> = f.iter().map(|x| x.folder.clone()).collect();
    let n = mark_subtree(&mut f, &canonical, "/r/a", true);
    assert_eq!(n, 2);
    assert!(f[0].keep && f[1].keep);
    assert!(!f[2].keep, "a sibling with a longer name is not a subfolder");
    let n = mark_subtree(&mut f, &canonical, "/r/a/sub", false);
    assert_eq!(n, 1);
    assert!(f[0].keep && !f[1].keep);
}

#[test]
fn mark_all_and_blocking() {
    let mut f = sample();
    assert!(move_blocked(&f));
    assert_eq!(mark_all(&mut f, true), 3);
    assert!(f.iter().all(|x| x.keep));
    assert!(!move_blocked(&f));
    mark_all(&mut f, false);
    assert!(move_blocked(&f));
    assert!(!move_blocked(&Vec::new()));
}

#[test]
fn preview_and_move_are_blocked_without_a_kept_folder() {
    let mut f = sample();
    let p = preview_move(&f, "/r", "/t", &|_p: &str| false);
    assert!(!p.ok);
    assert!(p.plan.is_empty());
    assert_eq!(p.errors.len(), 1);
    assert!(p.errors[0].starts_with("No folder is marked to keep"));
    let m = move_marked(
        &mut f,
        "/r",
        "/t",
        &|_p: &str| false,
        &|_p: &str| Ok(()),
        &|_a: &str, _b: &str| Ok(()),
        &|_a: &str, _b: &str| Ok(()),
    );
    assert!(!m.ok);
    assert_eq!(m.moved, 0);
    assert_eq!(f.len(), 3);
}

#[test]
fn preview_lists_the_unkept_files_with_their_total() {
    let mut f = sample();
    f[0].keep = true;
    let p = preview_move(&f, "/r", "/t", &|p: &str| p == "/t/ab/y.txt");
    assert!(p.ok);
    assert_eq!(p.kept_folders, 1);
    assert_eq!(p.plan.len(), 3);
    assert_eq!(p.plan[0].dest, "/t/a/sub/x.txt");
    assert_eq!(p.plan[2].dest, "/t/ab/y.txt.1");
    assert_eq!(p.total_size, 20);
}

#[test]
fn move_marked_reports_and_keeps_the_kept() {
    let mut f = sample();
    f[1].keep = true;
    let m = move_marked(
        &mut f,
        "/r",
        "/t",
        &|_p: &str| false,
        &|_p: &str| Ok(()),
        &|a: &str, _b: &str| {
            if a.ends_with("y.txt") {
                Err(RenameFailure { cross_device: false, message: "denied".to_string() })
            } else {
                Ok(())
            }
        },
        &|_a: &str, _b: &str| Ok(()),
    );
    assert_eq!(m.moved, 1);
    assert!(!m.ok);
    assert_eq!(m.errors, vec!["rename /r/ab/y.txt failed: denied".to_string()]);
    assert_eq!(m.kept_folders, 1);
    assert_eq!(f.len(), 1);
    assert_eq!(f[0].folder, "/r/a/sub");
}

#[test]
fn new_state_starts_empty() {
    let s = AppState::new_for_scan("/r".to_string(), "/t".to_string(), true);
    assert!(s.folders.is_empty());
    assert!(s.scanning);
    assert!(s.scan_error.is_none());
    assert_eq!(s.walked(), 0);
    assert_eq!(s.hashed(), 0);
    s.walked.store(7, std::sync::atomic::Ordering::Relaxed);
    assert_eq!(s.walked(), 7);
}
