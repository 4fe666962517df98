//! The data the scan produces and the user edits: folders that hold
//! duplicate files, and the state a user interface shares.
use std::sync::atomic::AtomicUsize;
use std::sync::Arc;
use vstd::prelude::*;

verus! {

/// A single duplicate file copy. Display-only metadata; keep is per folder,
/// not per file, so there's no keep flag here.
#[derive(Clone, Debug)]
pub struct FileEntry {
    pub path: String,
    pub size: u64,
}

/// A folder that contains at least one duplicate file copy. The user marks
/// whole folders as "keep in place" (`keep == true`); the files of the other
/// folders get moved to the target.
#[derive(Clone, Debug)]
pub struct Folder {
    pub folder: String,
    pub keep: bool,
    pub files: Vec<FileEntry>,
    /// total bytes of duplicate files in this folder
    pub total_size: u64,
}

/// What a file entry says: its path and its size.
pub struct FileView {
    pub path: Seq<char>,
    pub size: u64,
}

impl View for FileEntry {
    type V = FileView;

    open spec fn view(&self) -> FileView {
        FileView { path: self.path@, size: self.size }
    }
}

/// The views of a list of file entries.
pub open spec fn file_views(files: Seq<FileEntry>) -> Seq<FileView> {
    Seq::new(files.len(), |i: int| files[i]@)
}

/// Sum of the sizes of a list of files.
pub open spec fn size_sum(files: Seq<FileView>) -> int
    decreases files.len(),
{
    if files.len() == 0 {
        0
    } else {
        size_sum(files.drop_last()) + files.last().size
    }
}

/// The elements of `s` at the indices where `pick` holds, in order.
pub open spec fn picked<A>(s: Seq<A>, pick: spec_fn(int) -> bool) -> Seq<A>
    decreases s.len(),
{
    if s.len() == 0 {
        seq![]
    } else if pick(s.len() - 1) {
        picked(s.drop_last(), pick).push(s.last())
    } else {
        picked(s.drop_last(), pick)
    }
}

pub proof fn lemma_picked_push<A>(s: Seq<A>, x: A, pick: spec_fn(int) -> bool)
    ensures
        picked(s.push(x), pick) == (if pick(s.len() as int) {
            picked(s, pick).push(x)
        } else {
            picked(s, pick)
        }),
{
    assert(s.push(x).drop_last() =~= s);
}

pub proof fn lemma_size_sum_push(files: Seq<FileView>, f: FileView)
    ensures
        size_sum(files.push(f)) == size_sum(files) + f.size,
{
    assert(files.push(f).drop_last() =~= files);
}

pub proof fn lemma_size_sum_nonneg(files: Seq<FileView>)
    ensures
        size_sum(files) >= 0,
    decreases files.len(),
{
    if files.len() > 0 {
        lemma_size_sum_nonneg(files.drop_last());
    }
}

impl FileEntry {
    /// A copy of this entry.
    pub fn duplicate(&self) -> (r: FileEntry)
        ensures
            r@ == self@,
    {
        FileEntry { path: self.path.clone(), size: self.size }
    }
}

impl Folder {
    /// A copy of this folder with the same path, mark, files and size.
    pub fn duplicate(&self) -> (r: Folder)
        ensures
            r.folder@ == self.folder@,
            r.keep == self.keep,
            file_views(r.files@) == file_views(self.files@),
            r.total_size == self.total_size,
    {
        let mut files: Vec<FileEntry> = Vec::new();
        for i in 0..self.files.len()
            invariant
                file_views(files@) =~= file_views(self.files@.take(i as int)),
        {
            let ghost before = files@;
            files.push(self.files[i].duplicate());
            assert(file_views(files@) =~= file_views(before).push(self.files@[i as int]@));
            assert(file_views(self.files@.take(i + 1)) =~= file_views(self.files@.take(i as int)).push(self.files@[i as int]@));
        }
        assert(self.files@.take(self.files.len() as int) =~= self.files@);
        Folder { folder: self.folder.clone(), keep: self.keep, files, total_size: self.total_size }
    }
}

/// The state shared by the web handlers and the native window: the job's
/// root and target, the folders found, and the scan's progress.
pub struct AppState {
    pub root: String,
    pub target: String,
    pub folders: Vec<Folder>,
    /// true while the background scan thread is still running.
    pub scanning: bool,
    /// set if the scan thread panicked / errored.
    pub scan_error: Option<String>,
    /// live counters (also written by the scan thread; read by /api/scan_progress)
    pub walked: Arc<AtomicUsize>,
    pub hashed: Arc<AtomicUsize>,
}

impl AppState {
    /// A state for a scan of `root` into `target` that has found nothing yet.
    pub fn new_for_scan(root: String, target: String, scanning: bool) -> (r: Self)
        ensures
            r.root == root,
            r.target == target,
            r.folders@.len() == 0,
            r.scanning == scanning,
            r.scan_error is None,
    {
        AppState {
            root,
            target,
            folders: Vec::new(),
            scanning,
            scan_error: None,
            walked: Arc::new(AtomicUsize::new(0)),
            hashed: Arc::new(AtomicUsize::new(0)),
        }
    }

    /// The live count of files walked so far. Another thread may update the
    /// counter at any time, so nothing is stated of the value read.
    pub fn walked(&self) -> usize {
        self.walked.load(std::sync::atomic::Ordering::Relaxed)
    }

    /// The live count of files hashed so far (see `walked`).
    pub fn hashed(&self) -> usize {
        self.hashed.load(std::sync::atomic::Ordering::Relaxed)
    }
}

} // verus!

verus! {

/// Sum of the sizes of the files of `files` at the indices in `used`.
pub open spec fn sizes_at(files: Seq<FileView>, used: Set<int>) -> int {
    size_sum(picked(files, |i: int| used.contains(i)))
}

/// `picked` only looks at the indices of the sequence.
pub proof fn lemma_picked_agree<A>(s: Seq<A>, p: spec_fn(int) -> bool, q: spec_fn(int) -> bool)
    requires
        forall|i: int| 0 <= i < s.len() ==> #[trigger] p(i) == q(i),
    ensures
        picked(s, p) == picked(s, q),
    decreases s.len(),
{
    if s.len() > 0 {
        lemma_picked_agree(s.drop_last(), p, q);
    }
}

/// Picking nowhere gives nothing.
pub proof fn lemma_picked_none<A>(s: Seq<A>, p: spec_fn(int) -> bool)
    requires
        forall|i: int| #[trigger] p(i) == false,
    ensures
        picked(s, p) == Seq::<A>::empty(),
    decreases s.len(),
{
    if s.len() > 0 {
        lemma_picked_none(s.drop_last(), p);
    }
}

/// Adding an index adds its size.
pub proof fn lemma_sizes_at_insert(files: Seq<FileView>, used: Set<int>, x: int)
    requires
        0 <= x < files.len(),
        !used.contains(x),
    ensures
        sizes_at(files, used.insert(x)) == sizes_at(files, used) + files[x].size,
    decreases files.len(),
{
    let p = |i: int| used.contains(i);
    let q = |i: int| used.insert(x).contains(i);
    let n = files.len() - 1;
    let init = files.drop_last();
    if x == n {
        lemma_picked_agree(init, p, q);
        lemma_size_sum_push(picked(init, p), files[n]);
    } else {
        lemma_sizes_at_insert(init, used, x);
        if used.contains(n) {
            lemma_size_sum_push(picked(init, p), files[n]);
            lemma_size_sum_push(picked(init, q), files[n]);
        }
    }
}

/// A sum over some of the files is at most the sum over all of them.
pub proof fn lemma_sizes_at_bound(files: Seq<FileView>, used: Set<int>)
    ensures
        0 <= sizes_at(files, used) <= size_sum(files),
    decreases files.len(),
{
    let p = |i: int| used.contains(i);
    if files.len() > 0 {
        let init = files.drop_last();
        lemma_sizes_at_bound(init, used);
        if used.contains(files.len() - 1) {
            lemma_size_sum_push(picked(init, p), files.last());
        }
        assert(init.push(files.last()) =~= files);
        lemma_size_sum_push(init, files.last());
    }
}

/// Each picked element sits at an index where `pick` holds.
pub proof fn lemma_picked_from<A>(s: Seq<A>, pick: spec_fn(int) -> bool)
    ensures
        forall|t: int| #![trigger picked(s, pick)[t]] 0 <= t < picked(s, pick).len() ==> exists|i: int|
            0 <= i < s.len() && pick(i) && #[trigger] s[i] == picked(s, pick)[t],
    decreases s.len(),
{
    if s.len() > 0 {
        let init = s.drop_last();
        lemma_picked_from(init, pick);
        assert forall|t: int| #![trigger picked(s, pick)[t]] 0 <= t < picked(s, pick).len() implies exists|i: int|
            0 <= i < s.len() && pick(i) && #[trigger] s[i] == picked(s, pick)[t] by {
            if t < picked(init, pick).len() {
                assert(picked(s, pick)[t] == picked(init, pick)[t]);
                let i = choose|i: int| 0 <= i < init.len() && pick(i) && #[trigger] init[i] == picked(init, pick)[t];
                assert(s[i] == init[i]);
            } else {
                assert(s[s.len() - 1] == picked(s, pick)[t]);
            }
        }
    }
}

/// The sum over two lists one after the other.
pub proof fn lemma_size_sum_concat(a: Seq<FileView>, b: Seq<FileView>)
    ensures
        size_sum(a + b) == size_sum(a) + size_sum(b),
        size_sum(b) >= 0,
    decreases b.len(),
{
    lemma_size_sum_nonneg(b);
    if b.len() > 0 {
        lemma_size_sum_concat(a, b.drop_last());
        assert((a + b).drop_last() =~= a + b.drop_last());
    } else {
        assert(a + b =~= a);
    }
}

/// Picking some of the files weighs no more than all of them.
pub proof fn lemma_picked_size_sum(v: Seq<FileView>, pick: spec_fn(int) -> bool)
    ensures
        size_sum(picked(v, pick)) <= size_sum(v),
    decreases v.len(),
{
    if v.len() > 0 {
        lemma_picked_size_sum(v.drop_last(), pick);
        lemma_size_sum_push(v.drop_last(), v.last());
        assert(v.drop_last().push(v.last()) =~= v);
        if pick(v.len() - 1) {
            lemma_size_sum_push(picked(v.drop_last(), pick), v.last());
        }
    }
}

} // verus!
