//! Which files a scan considers, and how the files it finds become the
//! list of folders holding duplicates.
//!
//! A scan runs in three steps: the walked files are filtered
//! (`ScanFilter::admits`); only files whose size occurs more than once can
//! have a duplicate, so only those are hashed (`size_prefilter`); the files
//! whose digest occurs more than once are grouped by parent folder
//! (`duplicate_folders`).
use vstd::prelude::*;
use crate::model::{FileEntry, FileView, Folder, file_views, size_sum, picked, lemma_picked_push, lemma_size_sum_push, lemma_size_sum_nonneg, sizes_at, lemma_sizes_at_insert, lemma_sizes_at_bound};
use crate::order::{KeyOrder, NumberKeys, TextKeys, mark_shared, rank_all, ranked, covers, shared, lemma_ranked_distinct};
use crate::path::{file_name, file_name_of, extension_of, extension_of_file_name, parent, parent_of, path_starts_with, starts_with, path_steps, steps};
use crate::digest::{digest_hex, digest_text, md5_of, sha256_of, xxh64_of};
use crate::text::{chars_eq, chars_eq_str, chars_of, lower_chars, lowered, string_of, trim_chars, trimmed, text_lt, text_le, concat_str, decimal, decimal_chars};

verus! {

// ---------------------------------------------------------------------------
// Hash algorithm names
// ---------------------------------------------------------------------------

/// Which hash algorithm to use when detecting duplicates. The digest is only
/// used to compare file equality, never for cryptographic purposes.
#[derive(Debug, Clone, Copy, PartialEq, Eq, Structural)]
pub enum HashAlgo {
    Md5,
    Xxhash,
    Sha256,
}

/// The name of an algorithm.
pub open spec fn algo_name(a: HashAlgo) -> Seq<char> {
    match a {
        HashAlgo::Md5 => "md5"@,
        HashAlgo::Xxhash => "xxhash"@,
        HashAlgo::Sha256 => "sha256"@,
    }
}

/// The algorithm a (trimmed, ASCII lower-cased) name selects, or the error
/// message for an unknown name.
pub open spec fn algo_from_name(s: Seq<char>) -> Result<HashAlgo, Seq<char>> {
    let t = lowered(trimmed(s));
    if t == "md5"@ {
        Ok(HashAlgo::Md5)
    } else if t == "xxhash"@ || t == "xxh"@ || t == "xxh64"@ {
        Ok(HashAlgo::Xxhash)
    } else if t == "sha256"@ || t == "sha2-256"@ {
        Ok(HashAlgo::Sha256)
    } else {
        Err("unknown hash '"@ + t + "': expected md5, xxhash, or sha256"@)
    }
}

impl HashAlgo {
    /// Parse from a CLI string ("md5" | "xxhash" | "sha256"); surrounding
    /// whitespace is ignored and ASCII case does not matter.
    pub fn parse(s: &str) -> (r: Result<Self, String>)
        ensures
            r matches Ok(a) ==> algo_from_name(s@) == Ok::<HashAlgo, Seq<char>>(a),
            r matches Err(e) ==> algo_from_name(s@) == Err::<HashAlgo, Seq<char>>(e@),
    {
        let raw = chars_of(s);
        let t0 = trim_chars(&raw);
        let t = lower_chars(&t0);
        if chars_eq_str(&t, "md5") {
            Ok(HashAlgo::Md5)
        } else if chars_eq_str(&t, "xxhash") || chars_eq_str(&t, "xxh") || chars_eq_str(&t, "xxh64") {
            Ok(HashAlgo::Xxhash)
        } else if chars_eq_str(&t, "sha256") || chars_eq_str(&t, "sha2-256") {
            Ok(HashAlgo::Sha256)
        } else {
            let ts = string_of(&t);
            let head = concat_str("unknown hash '", ts.as_str());
            Err(concat_str(head.as_str(), "': expected md5, xxhash, or sha256"))
        }
    }

    /// The canonical name of the algorithm.
    pub fn as_str(&self) -> (r: &'static str)
        ensures
            r@ == algo_name(*self),
    {
        match self {
            HashAlgo::Md5 => "md5",
            HashAlgo::Xxhash => "xxhash",
            HashAlgo::Sha256 => "sha256",
        }
    }
}

/// The name of every algorithm parses back to that algorithm.
pub proof fn law_algo_name_round_trip(a: HashAlgo)
    ensures
        algo_from_name(algo_name(a)) == Ok::<HashAlgo, Seq<char>>(a),
{
    reveal_strlit("md5");
    reveal_strlit("xxhash");
    reveal_strlit("xxh");
    reveal_strlit("xxh64");
    reveal_strlit("sha256");
    reveal_strlit("sha2-256");
    let n = algo_name(a);
    assert("xxhash"@.len() != "md5"@.len());
    assert("sha256"@ != "md5"@) by { assert("sha256"@[0] != "md5"@[0]); }
    assert("sha256"@ != "xxhash"@) by { assert("sha256"@[0] != "xxhash"@[0]); }
    assert("sha256"@ != "xxh"@) by { assert("sha256"@.len() != "xxh"@.len()); }
    assert("sha256"@ != "xxh64"@) by { assert("sha256"@.len() != "xxh64"@.len()); }
    assert(crate::text::leading_space(n) == 0);
    assert(n.skip(0) =~= n);
    assert(crate::text::trailing_space(n) == 0);
    assert(n.take(n.len() as int) =~= n);
    assert(trimmed(n) =~= n);
    assert(lowered(n) =~= n);
}

/// Parsing an algorithm name ignores ASCII case: names that differ only in
/// the case of their letters parse alike.
pub proof fn law_algo_name_case_insensitive(s1: Seq<char>, s2: Seq<char>)
    requires
        lowered(s1) == lowered(s2),
    ensures
        algo_from_name(s1) == algo_from_name(s2),
{
    crate::text::lemma_lowered_trimmed(s1);
    crate::text::lemma_lowered_trimmed(s2);
}

// ---------------------------------------------------------------------------
// Glob patterns
// ---------------------------------------------------------------------------

#[verifier::external_type_specification]
#[verifier::external_body]
pub struct ExPattern(glob::Pattern);

/// How `glob::Pattern::new` refuses `pattern`: `None` when it accepts it,
/// otherwise the error's position and message.
pub uninterp spec fn glob_refusal(pattern: Seq<char>) -> Option<(usize, Seq<char>)>;

/// Whether `pattern` is a valid glob (`glob::Pattern::new` accepts it).
pub open spec fn glob_valid(pattern: Seq<char>) -> bool {
    glob_refusal(pattern) is None
}

/// The text of the error for an invalid glob `pattern`.
pub open spec fn glob_error_text(pattern: Seq<char>) -> Seq<char> {
    match glob_refusal(pattern) {
        Some((pos, msg)) => "Pattern syntax error near position "@ + decimal(pos as nat) + ": "@ + msg,
        None => seq![],
    }
}

/// Whether `name` matches the glob `pattern` under the default match
/// options (`glob::Pattern::matches`).
pub uninterp spec fn glob_match(pattern: Seq<char>, name: Seq<char>) -> bool;

/// Why a glob pattern was refused: the approximate character position and
/// the crate's message.
#[derive(Debug, Clone)]
pub struct GlobError {
    pub pos: usize,
    pub msg: String,
}

impl GlobError {
    /// "Pattern syntax error near position {pos}: {msg}".
    pub fn message(&self) -> (r: String)
        ensures
            r@ == "Pattern syntax error near position "@ + decimal(self.pos as nat) + ": "@
                + self.msg@,
    {
        let pos = string_of(&decimal_chars(self.pos as u64));
        let a = concat_str("Pattern syntax error near position ", pos.as_str());
        let b = concat_str(a.as_str(), ": ");
        concat_str(b.as_str(), self.msg.as_str())
    }
}

/// `glob::Pattern::new`. Claimed: it succeeds exactly when
/// `glob_refusal(src)` is `None`, and otherwise refuses with the position
/// and message that `glob_refusal(src)` names, passed on unchanged.
#[verifier::external_body]
fn compile_glob(src: &str) -> (r: Result<glob::Pattern, GlobError>)
    ensures
        r is Ok <==> glob_refusal(src@) is None,
        r matches Err(e) ==> glob_refusal(src@) == Some((e.pos, e.msg@)),
{
    match glob::Pattern::new(src) {
        Ok(p) => Ok(p),
        Err(e) => Err(GlobError { pos: e.pos, msg: e.msg.to_string() }),
    }
}

/// A compiled glob pattern together with its source text.
#[derive(Debug)]
pub struct Glob {
    source: String,
    compiled: glob::Pattern,
}

impl View for Glob {
    type V = Seq<char>;

    closed spec fn view(&self) -> Seq<char> {
        self.source@
    }
}

/// `glob::Pattern::matches` on the pattern compiled from `g`'s source.
/// Claimed: the result is `glob_match(source, name)`; this holds because a
/// `Glob` is only built by `Glob::new`, which compiles exactly its source.
#[verifier::external_body]
fn pattern_matches(g: &Glob, name: &str) -> (r: bool)
    ensures
        r == glob_match(g@, name@),
{
    g.compiled.matches(name)
}

impl Glob {
    /// Compiles `src`.
    pub fn new(src: &str) -> (r: Result<Glob, GlobError>)
        ensures
            r is Ok <==> glob_valid(src@),
            r matches Err(e) ==> glob_refusal(src@) == Some((e.pos, e.msg@)),
            r matches Ok(g) ==> g@ == src@,
    {
        match compile_glob(src) {
            Ok(p) => Ok(Glob { source: String::from_str(src), compiled: p }),
            Err(e) => Err(e),
        }
    }

    /// The source text of the pattern.
    pub fn as_str(&self) -> (r: &str)
        ensures
            r@ == self@,
    {
        self.source.as_str()
    }

    /// Whether `name` matches the pattern.
    pub fn matches(&self, name: &str) -> (r: bool)
        ensures
            r == glob_match(self@, name@),
    {
        pattern_matches(self, name)
    }
}

/// Some glob of `gs` matches `name`.
pub open spec fn any_glob_matches(gs: Seq<Glob>, name: Seq<char>) -> bool {
    exists|i: int| 0 <= i < gs.len() && glob_match(#[trigger] gs[i]@, name)
}

fn any_matches(gs: &Vec<Glob>, name: &str) -> (r: bool)
    ensures
        r == any_glob_matches(gs@, name@),
{
    for i in 0..gs.len()
        invariant
            forall|j: int| 0 <= j < i ==> !glob_match(#[trigger] gs@[j]@, name@),
    {
        if gs[i].matches(name) {
            return true;
        }
    }
    false
}

// ---------------------------------------------------------------------------
// The filter
// ---------------------------------------------------------------------------

/// What a scan looks at.
#[derive(Debug)]
pub struct ScanFilter {
    pub min_size: u64,
    pub include_globs: Vec<Glob>,
    pub ignore_name_globs: Vec<Glob>,
    pub ignore_exts: Vec<String>,
    pub exclude_dirs: Vec<String>,
    /// Directory name fragments to skip if any path component equals one of
    /// these (e.g. "node_modules", "target").
    pub exclude_components: Vec<String>,
    pub hash_algo: HashAlgo,
}

/// Some string of `list` equals `s`.
pub open spec fn listed(list: Seq<String>, s: Seq<char>) -> bool {
    exists|i: int| 0 <= i < list.len() && #[trigger] list[i]@ == s
}

fn is_listed(list: &Vec<String>, s: &Vec<char>) -> (r: bool)
    ensures
        r == listed(list@, s@),
{
    for i in 0..list.len()
        invariant
            forall|j: int| 0 <= j < i ==> #[trigger] list@[j]@ != s@,
    {
        let v = chars_of(list[i].as_str());
        if chars_eq(&v, s) {
            return true;
        }
    }
    false
}

impl ScanFilter {
    /// The path lives inside an excluded directory (matched by whole
    /// components) or one of its components is an excluded name.
    pub open spec fn excludes(&self, p: Seq<char>) -> bool {
        ||| exists|i: int| 0 <= i < self.exclude_dirs.len() && starts_with(p, #[trigger] self.exclude_dirs@[i]@)
        ||| exists|j: int|
            0 <= j < path_steps(p).len() && #[trigger] path_steps(p)[j] != ".."@ && listed(self.exclude_components@, path_steps(p)[j])
    }

    /// A file of this size at this path passes the size, name and
    /// extension tests.
    pub open spec fn accepts_file(&self, p: Seq<char>, size: u64) -> bool {
        &&& size >= self.min_size
        &&& !(file_name_of(p) matches Some(n) && any_glob_matches(self.ignore_name_globs@, n))
        &&& !(extension_of(p) matches Some(e) && listed(self.ignore_exts@, lowered(e)))
        &&& (self.include_globs.len() == 0 || any_glob_matches(
            self.include_globs@,
            match file_name_of(p) {
                Some(n) => n,
                None => seq![],
            },
        ))
    }

    /// True if the path lives inside an excluded dir or contains an excluded
    /// component name.
    pub fn excluded(&self, p: &str) -> (r: bool)
        ensures
            r == self.excludes(p@),
    {
        proof {
            reveal_strlit("..");
        }
        for i in 0..self.exclude_dirs.len()
            invariant
                forall|j: int| 0 <= j < i ==> !starts_with(p@, #[trigger] self.exclude_dirs@[j]@),
        {
            if path_starts_with(p, self.exclude_dirs[i].as_str()) {
                return true;
            }
        }
        let pv = chars_of(p);
        let st = steps(&pv);
        for j in 0..st.len()
            invariant
                crate::path::texts(st@) == path_steps(p@),
                forall|k: int| 0 <= k < j ==> !(#[trigger] path_steps(p@)[k] != ".."@ && listed(self.exclude_components@, path_steps(p@)[k])),
        {
            if !chars_eq_str(&st[j], "..") && is_listed(&self.exclude_components, &st[j]) {
                assert(path_steps(p@)[j as int] == st@[j as int]@);
                return true;
            }
            assert(path_steps(p@)[j as int] == st@[j as int]@);
        }
        false
    }

    /// Whether a file of `size` bytes at `path` passes the size, name and
    /// extension tests.
    pub fn accepts(&self, path: &str, size: u64) -> (r: bool)
        ensures
            r == self.accepts_file(path@, size),
    {
        if size < self.min_size {
            return false;
        }
        let name = file_name(path);
        if let Some(n) = &name {
            if any_matches(&self.ignore_name_globs, n.as_str()) {
                return false;
            }
            let nv = chars_of(n.as_str());
            if let Some(ext) = extension_of_file_name(&nv) {
                let low = lower_chars(&ext);
                if is_listed(&self.ignore_exts, &low) {
                    return false;
                }
            }
        }
        if self.include_globs.len() > 0 {
            let shown = match &name {
                Some(n) => n.clone(),
                None => String::new(),
            };
            if !any_matches(&self.include_globs, shown.as_str()) {
                return false;
            }
        }
        true
    }

    /// Whether a walked file takes part in the scan: not excluded, and
    /// accepted.
    pub fn admits(&self, path: &str, size: u64) -> (r: bool)
        ensures
            r == (!self.excludes(path@) && self.accepts_file(path@, size)),
    {
        !self.excluded(path) && self.accepts(path, size)
    }
}

/// Nothing inside an excluded directory takes part in a scan (so files
/// already moved into a target listed there are never scanned again).
pub proof fn law_excluded_dirs_never_admitted(filter: &ScanFilter, i: int, p: Seq<char>, size: u64)
    requires
        0 <= i < filter.exclude_dirs.len(),
        starts_with(p, filter.exclude_dirs@[i]@),
    ensures
        filter.excludes(p),
        !(!filter.excludes(p) && filter.accepts_file(p, size)),
{
}

// ---------------------------------------------------------------------------
// Size prefilter
// ---------------------------------------------------------------------------

/// Some other file of the list has the size of file `i`.
pub open spec fn size_shared(files: Seq<FileEntry>, i: int) -> bool {
    exists|j: int| 0 <= j < files.len() && j != i && #[trigger] files[j].size == files[i].size
}

/// The files whose size occurs more than once, in their original order.
/// A file of unique size cannot have a duplicate, so only these need hashing.
pub fn size_prefilter(files: &Vec<FileEntry>) -> (r: Vec<FileEntry>)
    ensures
        file_views(r@) == picked(file_views(files@), |i: int| size_shared(files@, i)),
{
    let mut keys: Vec<u64> = Vec::new();
    for i in 0..files.len()
        invariant
            keys.len() == i,
            forall|j: int| 0 <= j < i ==> keys@[j] == #[trigger] files@[j].size,
    {
        keys.push(files[i].size);
    }
    let order = NumberKeys { keys, descending: false };
    let flags = mark_shared(&order);
    let ghost pick = |i: int| size_shared(files@, i);
    let mut r: Vec<FileEntry> = Vec::new();
    for i in 0..files.len()
        invariant
            flags.len() == files.len(),
            order.keys.len() == files.len(),
            forall|j: int| 0 <= j < files.len() ==> order.keys@[j] == #[trigger] files@[j].size,
            forall|j: int| 0 <= j < files.len() ==> #[trigger] flags@[j] == shared(&order, j),
            pick == (|i: int| size_shared(files@, i)),
            file_views(r@) == picked(file_views(files@).take(i as int), pick),
    {
        proof {
            assert(file_views(files@).take(i + 1) =~= file_views(files@).take(i as int).push(files@[i as int]@));
            lemma_picked_push(file_views(files@).take(i as int), files@[i as int]@, pick);
            assert(flags@[i as int] == pick(i as int)) by {
                if shared(&order, i as int) {
                    let j = choose|j: int| 0 <= j < order.count() && j != i && #[trigger] order.same(i as int, j);
                    assert(files@[j].size == files@[i as int].size);
                }
                if pick(i as int) {
                    let j = choose|j: int| 0 <= j < files.len() && j != i && #[trigger] files@[j].size == files@[i as int].size;
                    assert(order.same(i as int, j));
                }
            }
        }
        let ghost before = r@;
        if flags[i] {
            r.push(files[i].duplicate());
            assert(file_views(r@) =~= file_views(before).push(files@[i as int]@));
        }
    }
    assert(file_views(files@).take(files.len() as int) =~= file_views(files@));
    r
}

// ---------------------------------------------------------------------------
// Grouping duplicates by folder
// ---------------------------------------------------------------------------

/// A walked file with the digest of its contents.
#[derive(Debug, Clone)]
pub struct HashedFile {
    pub file: FileEntry,
    pub digest: String,
}

/// Some other file of the list has the digest of file `i`.
pub open spec fn digest_shared(h: Seq<HashedFile>, i: int) -> bool {
    exists|j: int| 0 <= j < h.len() && j != i && #[trigger] h[j].digest@ == h[i].digest@
}

/// The folder a file is listed under: its parent path (empty if none).
pub open spec fn folder_of(p: Seq<char>) -> Seq<char> {
    match parent_of(p) {
        Some(q) => q,
        None => seq![],
    }
}

/// All files of all folders, folder by folder.
pub open spec fn all_files(r: Seq<Folder>) -> Seq<FileView>
    decreases r.len(),
{
    if r.len() == 0 {
        seq![]
    } else {
        all_files(r.drop_last()) + file_views(r.last().files@)
    }
}

/// Folders in strictly increasing order of their path, none empty, none
/// kept, each listing its files in order of path under their parent folder,
/// with their total size.
pub open spec fn well_grouped(r: Seq<Folder>) -> bool {
    &&& forall|k: int| 0 <= k < r.len() ==> {
        &&& !(#[trigger] r[k]).keep
        &&& r[k].files.len() > 0
        &&& r[k].total_size == size_sum(file_views(r[k].files@))
    }
    &&& forall|k: int, l: int| 0 <= k < l < r.len() ==> text_lt(#[trigger] r[k].folder@, #[trigger] r[l].folder@)
    &&& forall|k: int, m: int| 0 <= k < r.len() && 0 <= m < r[k].files.len()
        ==> folder_of(#[trigger] r[k].files@[m].path@) == r[k].folder@
    &&& forall|k: int, m: int, n: int| 0 <= k < r.len() && 0 <= m < n < r[k].files.len()
        ==> text_le(#[trigger] r[k].files@[m].path@, #[trigger] r[k].files@[n].path@)
}

/// `v` lists, once each, the files of `h` whose digest is shared, `src[t]`
/// being the index in `h` of `v[t]`.
pub open spec fn lists_duplicates(v: Seq<FileView>, h: Seq<HashedFile>, src: Seq<int>) -> bool {
    &&& src.len() == v.len()
    &&& forall|t: int| 0 <= t < src.len() ==> {
        &&& 0 <= #[trigger] src[t] < h.len()
        &&& digest_shared(h, src[t])
        &&& v[t] == h[src[t]].file@
    }
    &&& forall|t: int, u: int| 0 <= t < src.len() && 0 <= u < src.len() && t != u ==> src[t] != src[u]
    &&& forall|i: int| 0 <= i < h.len() && digest_shared(h, i) ==> exists|t: int| 0 <= t < src.len() && #[trigger] src[t] == i
}

/// The sizes of all hashed files.
pub open spec fn hashed_sizes(h: Seq<HashedFile>) -> Seq<FileView> {
    Seq::new(h.len(), |i: int| h[i].file@)
}


proof fn lemma_text_le_trans(a: Seq<char>, b: Seq<char>, c: Seq<char>)
    requires
        text_le(a, b),
        text_le(b, c),
    ensures
        text_le(a, c),
{
    if text_lt(a, b) && text_lt(b, c) {
        crate::text::lemma_text_lt_transitive(a, b, c);
    }
}

proof fn lemma_all_files_push(r: Seq<Folder>, f: Folder)
    ensures
        all_files(r.push(f)) == all_files(r) + file_views(f.files@),
{
    assert(r.push(f).drop_last() =~= r);
}

/// The folder text of a file path.
fn folder_chars(p: &String) -> (r: Vec<char>)
    ensures
        r@ == folder_of(p@),
{
    match parent(p.as_str()) {
        Some(q) => chars_of(q.as_str()),
        None => Vec::new(),
    }
}

/// Whether the sizes of the hashed files add up to at most `u64::MAX`.
pub fn sizes_fit(hashed: &Vec<HashedFile>) -> (r: bool)
    ensures
        r == (size_sum(hashed_sizes(hashed@)) <= u64::MAX),
{
    let mut total: u64 = 0;
    for i in 0..hashed.len()
        invariant
            total == size_sum(hashed_sizes(hashed@).take(i as int)),
    {
        proof {
            assert(hashed_sizes(hashed@).take(i + 1) =~= hashed_sizes(hashed@).take(i as int).push(hashed@[i as int].file@));
            lemma_size_sum_push(hashed_sizes(hashed@).take(i as int), hashed@[i as int].file@);
        }
        if total > u64::MAX - hashed[i].file.size {
            proof {
                lemma_size_sum_take(hashed_sizes(hashed@), i + 1);
            }
            return false;
        }
        total = total + hashed[i].file.size;
    }
    assert(hashed_sizes(hashed@).take(hashed.len() as int) =~= hashed_sizes(hashed@));
    true
}

proof fn lemma_size_sum_take(v: Seq<FileView>, k: int)
    requires
        0 <= k <= v.len(),
    ensures
        size_sum(v.take(k)) <= size_sum(v),
    decreases v.len() - k,
{
    if k < v.len() {
        lemma_size_sum_take(v, k + 1);
        assert(v.take(k + 1).drop_last() =~= v.take(k));
    } else {
        assert(v.take(k) =~= v);
    }
}

/// The files of `hashed` whose digest occurs more than once, grouped by
/// parent folder: folders in order of path, files in order of path.
pub fn duplicate_folders(hashed: &Vec<HashedFile>) -> (r: Vec<Folder>)
    requires
        size_sum(hashed_sizes(hashed@)) <= u64::MAX,
    ensures
        well_grouped(r@),
        exists|src: Seq<int>| lists_duplicates(all_files(r@), hashed@, src),
{
    let n = hashed.len();
    // Which digests occur more than once.
    let mut dkeys: Vec<Vec<char>> = Vec::new();
    for i in 0..n
        invariant
            n == hashed.len(),
            dkeys.len() == i,
            forall|j: int| 0 <= j < i ==> (#[trigger] dkeys@[j])@ == hashed@[j].digest@,
    {
        dkeys.push(chars_of(hashed[i].digest.as_str()));
    }
    let dorder = TextKeys { primary: dkeys, secondary: Vec::new() };
    let flags = mark_shared(&dorder);
    assert forall|i: int| 0 <= i < n implies #[trigger] flags@[i] == digest_shared(hashed@, i) by {
        if shared(&dorder, i) {
            let j = choose|j: int| 0 <= j < dorder.count() && j != i && #[trigger] dorder.same(i, j);
            assert(hashed@[j].digest@ == hashed@[i].digest@);
        }
        if digest_shared(hashed@, i) {
            let j = choose|j: int| 0 <= j < hashed.len() && j != i && #[trigger] hashed@[j].digest@ == hashed@[i].digest@;
            assert(dorder.same(i, j));
        }
    }
    // The duplicates, in input order, with their folder and path texts.
    let mut dup: Vec<usize> = Vec::new();
    let mut fkeys: Vec<Vec<char>> = Vec::new();
    let mut pkeys: Vec<Vec<char>> = Vec::new();
    for i in 0..n
        invariant
            n == hashed.len(),
            flags.len() == n,
            forall|x: int| 0 <= x < n ==> #[trigger] flags@[x] == digest_shared(hashed@, x),
            dup.len() == fkeys.len(),
            dup.len() == pkeys.len(),
            forall|t: int| 0 <= t < dup.len() ==> #[trigger] dup@[t] < i && digest_shared(hashed@, dup@[t] as int),
            forall|t: int, u: int| 0 <= t < u < dup.len() ==> #[trigger] dup@[t] < #[trigger] dup@[u],
            forall|x: int| 0 <= x < i && digest_shared(hashed@, x) ==> exists|t: int| 0 <= t < dup.len() && #[trigger] dup@[t] == x,
            forall|t: int| 0 <= t < dup.len() ==> (#[trigger] fkeys@[t])@ == folder_of(hashed@[dup@[t] as int].file.path@),
            forall|t: int| 0 <= t < dup.len() ==> (#[trigger] pkeys@[t])@ == hashed@[dup@[t] as int].file.path@,
    {
        let ghost old_dup = dup@;
        if flags[i] {
            let fo = folder_chars(&hashed[i].file.path);
            fkeys.push(fo);
            pkeys.push(chars_of(hashed[i].file.path.as_str()));
            dup.push(i);
            proof {
                assert(dup@[dup.len() - 1] == i);
            }
        }
        proof {
            assert forall|x: int| 0 <= x < i + 1 && digest_shared(hashed@, x) implies exists|t: int| 0 <= t < dup.len() && #[trigger] dup@[t] == x by {
                if x == i {
                    assert(dup@[dup.len() - 1] == i);
                } else {
                    let t = choose|t: int| 0 <= t < old_dup.len() && #[trigger] old_dup[t] == x;
                    assert(dup@[t] == x);
                }
            }
        }
    }
    let m = dup.len();
    let gorder = TextKeys { primary: fkeys, secondary: pkeys };
    let s = rank_all(&gorder);
    proof {
        lemma_ranked_distinct(&gorder, s@);
        gorder.order_laws();
    }
    let ghost hs = hashed_sizes(hashed@);
    let ghost entry_of = |q: int| hashed@[dup@[s@[q] as int] as int].file@;
    // Build the folders in ranked order.
    let mut r: Vec<Folder> = Vec::new();
    let mut last_key: Vec<char> = Vec::new();
    let mut last_path: Vec<char> = Vec::new();
    let mut grand: u64 = 0;
    let ghost mut used: Set<int> = Set::empty();
    proof {
        crate::model::lemma_picked_none(hs, |i: int| used.contains(i));
        assert(used =~= Set::new(|x: int| exists|q: int| 0 <= q < 0 && x == dup@[s@[q] as int] as int));
        assert(all_files(r@) =~= Seq::new(0nat, entry_of));
    }
    for p in 0..m
        invariant
            m == dup.len(),
            m == gorder.primary.len(),
            m == gorder.secondary.len(),
            n == hashed.len(),
            hs == hashed_sizes(hashed@),
            size_sum(hs) <= u64::MAX,
            s.len() == m,
            ranked(&gorder, s@),
            covers(s@, 0, m as int),
            forall|i: int, j: int| 0 <= i < s.len() && 0 <= j < s.len() && i != j ==> s@[i] != s@[j],
            forall|t: int| 0 <= t < dup.len() ==> #[trigger] dup@[t] < n,
            forall|t: int, u: int| 0 <= t < u < dup.len() ==> #[trigger] dup@[t] < #[trigger] dup@[u],
            forall|t: int| 0 <= t < dup.len() ==> (#[trigger] gorder.primary@[t])@ == folder_of(hashed@[dup@[t] as int].file.path@),
            forall|t: int| 0 <= t < dup.len() ==> (#[trigger] gorder.secondary@[t])@ == hashed@[dup@[t] as int].file.path@,
            entry_of == (|q: int| hashed@[dup@[s@[q] as int] as int].file@),
            well_grouped(r@),
            all_files(r@) == Seq::new(p as nat, entry_of),
            p == 0 <==> r.len() == 0,
            p > 0 ==> r@.last().folder@ == last_key@,
            p > 0 ==> last_key@ == gorder.primary@[s@[p - 1] as int]@,
            p > 0 ==> last_path@ == gorder.secondary@[s@[p - 1] as int]@,
            p > 0 ==> forall|k: int| 0 <= k < r@.last().files.len() ==> text_le(#[trigger] r@.last().files@[k].path@, last_path@),
            used == Set::new(|x: int| exists|q: int| 0 <= q < p && x == dup@[s@[q] as int] as int),
            grand == sizes_at(hs, used),
            p > 0 ==> r@.last().total_size <= grand,
    {
        let t = s[p];
        let idx = dup[t];
        proof {
            assert(s@.contains(t));
            assert(!used.contains(idx as int)) by {
                if used.contains(idx as int) {
                    let q = choose|q: int| 0 <= q < p && idx as int == dup@[s@[q] as int] as int;
                    assert(s@[q] != s@[p as int]);
                    if s@[q] < t {
                        assert(dup@[s@[q] as int] < dup@[t as int]);
                    } else {
                        assert(dup@[t as int] < dup@[s@[q] as int]);
                    }
                }
            }
            lemma_sizes_at_insert(hs, used, idx as int);
            lemma_sizes_at_bound(hs, used.insert(idx as int));
        }
        let entry = hashed[idx].file.duplicate();
        let size = entry.size;
        let new_folder = r.len() == 0 || !chars_eq(&last_key, &gorder.primary[t]);
        let ghost r_before = r@;
        if new_folder {
            let mut files: Vec<FileEntry> = Vec::new();
            files.push(entry);
            proof {
                assert(file_views(files@) =~= seq![hashed@[idx as int].file@]);
                assert(seq![hashed@[idx as int].file@] =~= seq![].push(hashed@[idx as int].file@));
                lemma_size_sum_push(seq![], hashed@[idx as int].file@);
            }
            let f = Folder { folder: string_of(&gorder.primary[t]), keep: false, files, total_size: size };
            proof {
                lemma_all_files_push(r_before, f);
                if p > 0 {
                    let pt = s@[p - 1];
                    assert(gorder.before(pt as int, t as int));
                    assert(gorder.primary@[pt as int]@ != gorder.primary@[t as int]@);
                    crate::text::lemma_text_lt_total(gorder.primary@[pt as int]@, gorder.primary@[t as int]@);
                    assert(text_lt(last_key@, gorder.primary@[t as int]@));
                    assert forall|k: int, l: int| 0 <= k < l < r_before.len() + 1 implies text_lt(#[trigger] r_before.push(f)[k].folder@, #[trigger] r_before.push(f)[l].folder@) by {
                        if l == r_before.len() && k < r_before.len() - 1 {
                            crate::text::lemma_text_lt_transitive(r_before[k].folder@, last_key@, f.folder@);
                        }
                    }
                }
                let fo = gorder.primary@[t as int]@;
                assert(fo == folder_of(hashed@[idx as int].file.path@));
                assert(all_files(r_before.push(f)) =~= all_files(r_before) + seq![hashed@[idx as int].file@]);
            }
            r.push(f);
        } else {
            let mut cur = r.pop().unwrap();
            proof {
                assert(r@ =~= r_before.drop_last());
                let pt = s@[p - 1];
                assert(gorder.before(pt as int, t as int));
                assert(gorder.primary@[pt as int]@ == gorder.primary@[t as int]@);
                assert(crate::order::second_key(gorder.secondary@, pt as int) == gorder.secondary@[pt as int]@);
                assert(crate::order::second_key(gorder.secondary@, t as int) == gorder.secondary@[t as int]@);
                crate::text::lemma_text_lt_irreflexive(gorder.primary@[t as int]@);
                crate::text::lemma_text_lt_total(gorder.secondary@[pt as int]@, gorder.secondary@[t as int]@);
                assert(text_le(last_path@, gorder.secondary@[t as int]@));
                lemma_size_sum_push(file_views(cur.files@), hashed@[idx as int].file@);
            }
            let ghost cur_before = cur;
            cur.files.push(entry);
            cur.total_size = cur.total_size + size;
            proof {
                assert(file_views(cur.files@) =~= file_views(cur_before.files@).push(hashed@[idx as int].file@));
                assert forall|k: int| 0 <= k < cur.files.len() implies text_le(#[trigger] cur.files@[k].path@, gorder.secondary@[t as int]@) by {
                    if k < cur.files.len() - 1 {
                        assert(cur.files@[k] == cur_before.files@[k]);
                        lemma_text_le_trans(cur.files@[k].path@, last_path@, gorder.secondary@[t as int]@);
                    }
                }
                lemma_all_files_push(r@, cur);
                lemma_all_files_push(r@, cur_before);
                assert(r_before =~= r@.push(cur_before));
                assert(all_files(r@.push(cur)) =~= all_files(r_before) + seq![hashed@[idx as int].file@]);
            }
            r.push(cur);
        }
        grand = grand + size;
        proof {
            let old_used = used;
            used = used.insert(idx as int);
            assert(used =~= Set::new(|x: int| exists|q: int| 0 <= q < p + 1 && x == dup@[s@[q] as int] as int)) by {
                assert forall|x: int| used.contains(x) implies exists|q: int| 0 <= q < p + 1 && x == dup@[s@[q] as int] as int by {
                    if x == idx as int {
                        assert(x == dup@[s@[p as int] as int] as int);
                    } else {
                        assert(old_used.contains(x));
                    }
                }
                assert forall|x: int| (exists|q: int| 0 <= q < p + 1 && x == dup@[s@[q] as int] as int) implies used.contains(x) by {
                    let q = choose|q: int| 0 <= q < p + 1 && x == dup@[s@[q] as int] as int;
                    if q < p {
                        assert(old_used.contains(x));
                    }
                }
            }
            assert(all_files(r@) =~= Seq::new((p + 1) as nat, entry_of));
        }
        last_key = slice_chars_all(&gorder.primary[t]);
        last_path = slice_chars_all(&gorder.secondary[t]);
    }
    proof {
        let src = Seq::new(m as nat, |q: int| dup@[s@[q] as int] as int);
        assert(lists_duplicates(all_files(r@), hashed@, src)) by {
            assert forall|t: int, u: int| 0 <= t < src.len() && 0 <= u < src.len() && t != u implies src[t] != src[u] by {
                assert(s@[t] != s@[u]);
                if s@[t] < s@[u] {
                    assert(dup@[s@[t] as int] < dup@[s@[u] as int]);
                } else {
                    assert(dup@[s@[u] as int] < dup@[s@[t] as int]);
                }
            }
            assert forall|i: int| 0 <= i < hashed.len() && digest_shared(hashed@, i) implies exists|t: int| 0 <= t < src.len() && #[trigger] src[t] == i by {
                let t0 = choose|t: int| 0 <= t < dup.len() && #[trigger] dup@[t] == i;
                assert(s@.contains(t0 as usize));
                let q = choose|q: int| 0 <= q < s.len() && s@[q] == t0 as usize;
                assert(src[q] == i);
            }
        }
    }
    r
}

fn slice_chars_all(v: &Vec<char>) -> (r: Vec<char>)
    ensures
        r@ == v@,
{
    let r = crate::text::slice_chars(v, 0, v.len());
    assert(r@ =~= v@);
    r
}

// ---------------------------------------------------------------------------
// A whole scan over walked files
// ---------------------------------------------------------------------------

/// A walked file takes part in a scan: not excluded, and accepted.
pub open spec fn admits_view(filter: &ScanFilter, f: FileView) -> bool {
    !filter.excludes(f.path) && filter.accepts_file(f.path, f.size)
}

/// Some other file of the list has the size of file `i`.
pub open spec fn size_shared_view(v: Seq<FileView>, i: int) -> bool {
    exists|j: int| 0 <= j < v.len() && j != i && #[trigger] v[j].size == v[i].size
}

/// The walked files a scan admits, in order.
pub open spec fn admitted(filter: &ScanFilter, entries: Seq<FileView>) -> Seq<FileView> {
    picked(entries, |i: int| admits_view(filter, entries[i]))
}

/// The files a scan reads and hashes: the admitted files whose size
/// another admitted file shares, in order.
pub open spec fn scan_candidates(filter: &ScanFilter, entries: Seq<FileView>) -> Seq<FileView> {
    picked(admitted(filter, entries), |i: int| size_shared_view(admitted(filter, entries), i))
}

/// `read` answered `out` for the path `p`: the file's contents, or an error.
pub open spec fn read_gave<R: Fn(&str) -> Result<Vec<u8>, String>>(read: &R, p: Seq<char>, out: Result<Seq<u8>, Seq<char>>) -> bool {
    exists|x: &str, v: Result<Vec<u8>, String>|
        x@ == p && #[trigger] read.ensures((x,), v) && out == (match v {
            Ok(d) => Ok::<Seq<u8>, Seq<char>>(d@),
            Err(e) => Err::<Seq<u8>, Seq<char>>(e@),
        })
}

/// The contents a successful read gave.
pub open spec fn read_contents(out: Result<Seq<u8>, Seq<char>>) -> Seq<u8> {
    match out {
        Ok(d) => d,
        Err(_) => seq![],
    }
}

/// The digest text of what each read gave (`None` for a failed read).
pub open spec fn read_digests(algo: HashAlgo, outs: Seq<Result<Seq<u8>, Seq<char>>>) -> Seq<Option<Seq<char>>> {
    Seq::new(outs.len(), |k: int| if outs[k] is Ok {
        Some(digest_text(algo, read_contents(outs[k])))
    } else {
        None
    })
}

/// File `k` was read, and another file was read to the same digest.
pub open spec fn shares_digest(ds: Seq<Option<Seq<char>>>, k: int) -> bool {
    &&& ds[k] is Some
    &&& exists|l: int| 0 <= l < ds.len() && l != k && #[trigger] ds[l] == ds[k]
}

/// `v` lists, once each, the candidates whose digest another candidate
/// shares, `src[t]` being the candidate index of `v[t]`.
pub open spec fn lists_shared(v: Seq<FileView>, cands: Seq<FileView>, ds: Seq<Option<Seq<char>>>, src: Seq<int>) -> bool {
    &&& src.len() == v.len()
    &&& forall|t: int| 0 <= t < src.len() ==> {
        &&& 0 <= #[trigger] src[t] < cands.len()
        &&& shares_digest(ds, src[t])
        &&& v[t] == cands[src[t]]
    }
    &&& forall|t: int, u: int| 0 <= t < src.len() && 0 <= u < src.len() && t != u ==> src[t] != src[u]
    &&& forall|k: int| 0 <= k < cands.len() && shares_digest(ds, k) ==> exists|t: int| 0 <= t < src.len() && #[trigger] src[t] == k
}

/// Whether the walked files' sizes add up to at most `u64::MAX`.
pub fn entries_fit(entries: &Vec<FileEntry>) -> (r: bool)
    ensures
        r == (size_sum(file_views(entries@)) <= u64::MAX),
{
    let mut total: u64 = 0;
    for i in 0..entries.len()
        invariant
            total == size_sum(file_views(entries@).take(i as int)),
    {
        proof {
            assert(file_views(entries@).take(i + 1) =~= file_views(entries@).take(i as int).push(entries@[i as int]@));
            lemma_size_sum_push(file_views(entries@).take(i as int), entries@[i as int]@);
        }
        if total > u64::MAX - entries[i].size {
            proof {
                lemma_size_sum_take(file_views(entries@), i + 1);
            }
            return false;
        }
        total = total + entries[i].size;
    }
    assert(file_views(entries@).take(entries.len() as int) =~= file_views(entries@));
    true
}

proof fn lemma_size_shared_views(files: Seq<FileEntry>)
    ensures
        forall|i: int| 0 <= i < files.len() ==> #[trigger] size_shared(files, i) == size_shared_view(file_views(files), i),
{
    let v = file_views(files);
    assert forall|i: int| 0 <= i < files.len() implies #[trigger] size_shared(files, i) == size_shared_view(v, i) by {
        assert(v[i] == files[i]@);
        if size_shared(files, i) {
            let j = choose|j: int| 0 <= j < files.len() && j != i && #[trigger] files[j].size == files[i].size;
            assert(v[j] == files[j]@);
            assert(v[j].size == v[i].size);
            assert(size_shared_view(v, i));
        }
        if size_shared_view(v, i) {
            let j = choose|j: int| 0 <= j < v.len() && j != i && #[trigger] v[j].size == v[i].size;
            assert(v[j] == files[j]@);
            assert(files[j].size == files[i].size);
            assert(size_shared(files, i));
        }
    }
}

/// The files a scan lists, with the read outcomes: each file of `h` is the
/// candidate `pos[j]`, read to its digest; every read candidate is in `h`.
proof fn lemma_scan_lists_shared(
    h: Seq<HashedFile>,
    pos: Seq<int>,
    outs: Seq<Result<Seq<u8>, Seq<char>>>,
    cands: Seq<FileView>,
    algo: HashAlgo,
    v: Seq<FileView>,
    src_h: Seq<int>,
)
    requires
        outs.len() == cands.len(),
        pos.len() == h.len(),
        forall|j: int| 0 <= j < pos.len() ==> 0 <= #[trigger] pos[j] < cands.len(),
        forall|j1: int, j2: int| 0 <= j1 < j2 < pos.len() ==> #[trigger] pos[j1] < #[trigger] pos[j2],
        forall|j: int| 0 <= j < pos.len() ==> (#[trigger] h[j]).file@ == cands[pos[j]] && outs[pos[j]] is Ok
            && h[j].digest@ == digest_text(algo, read_contents(outs[pos[j]])),
        forall|m: int| 0 <= m < cands.len() && (#[trigger] outs[m]) is Ok ==> exists|j: int| 0 <= j < pos.len() && pos[j] == m,
        lists_duplicates(v, h, src_h),
    ensures
        lists_shared(v, cands, read_digests(algo, outs), Seq::new(src_h.len(), |t: int| pos[src_h[t]])),
{
    let ds = read_digests(algo, outs);
    let src = Seq::new(src_h.len(), |t: int| pos[src_h[t]]);
    assert forall|j1: int, j2: int| 0 <= j1 < pos.len() && 0 <= j2 < pos.len() && j1 != j2 implies pos[j1] != pos[j2] by {
        if j1 < j2 {
            assert(pos[j1] < pos[j2]);
        } else {
            assert(pos[j2] < pos[j1]);
        }
    }
    assert forall|j: int| 0 <= j < pos.len() implies #[trigger] ds[pos[j]] == Some(h[j].digest@) by {
        assert(h[j].file@ == cands[pos[j]]);
    }
    assert forall|t: int| 0 <= t < src.len() implies {
        &&& 0 <= #[trigger] src[t] < cands.len()
        &&& shares_digest(ds, src[t])
        &&& v[t] == cands[src[t]]
    } by {
        let j = src_h[t];
        assert(0 <= j < h.len() && digest_shared(h, j) && v[t] == h[j].file@);
        let j2 = choose|j2: int| 0 <= j2 < h.len() && j2 != j && #[trigger] h[j2].digest@ == h[j].digest@;
        assert(ds[pos[j]] == Some(h[j].digest@));
        assert(ds[pos[j2]] == Some(h[j2].digest@));
        assert(pos[j2] != pos[j]);
        assert(src[t] == pos[j]);
    }
    assert forall|k: int| 0 <= k < cands.len() && shares_digest(ds, k) implies exists|t: int| 0 <= t < src.len() && #[trigger] src[t] == k by {
        assert(outs[k] is Ok);
        let j = choose|j: int| 0 <= j < pos.len() && pos[j] == k;
        let l = choose|l: int| 0 <= l < ds.len() && l != k && #[trigger] ds[l] == ds[k];
        assert(outs[l] is Ok);
        let j2 = choose|j2: int| 0 <= j2 < pos.len() && pos[j2] == l;
        assert(ds[pos[j]] == Some(h[j].digest@));
        assert(ds[pos[j2]] == Some(h[j2].digest@));
        assert(h[j2].digest@ == h[j].digest@);
        assert(digest_shared(h, j));
        let t = choose|t: int| 0 <= t < src_h.len() && #[trigger] src_h[t] == j;
        assert(src[t] == k);
    }
}

/// A whole scan over the walked files (path and size each): the files
/// the filter admits, those whose size another admitted file shares, each
/// read once with `read` and hashed; then the files whose digest another
/// read file shares, grouped by parent folder.
pub fn scan_files<R: Fn(&str) -> Result<Vec<u8>, String>>(entries: &Vec<FileEntry>, filter: &ScanFilter, read: &R) -> (r: Vec<Folder>)
    requires
        forall|p: &str| read.requires((p,)),
        size_sum(file_views(entries@)) <= u64::MAX,
    ensures
        well_grouped(r@),
        exists|outs: Seq<Result<Seq<u8>, Seq<char>>>, src: Seq<int>| {
            &&& outs.len() == scan_candidates(filter, file_views(entries@)).len()
            &&& forall|k: int| 0 <= k < outs.len() ==> read_gave(read, scan_candidates(filter, file_views(entries@))[k].path, #[trigger] outs[k])
            &&& lists_shared(all_files(r@), scan_candidates(filter, file_views(entries@)), read_digests(filter.hash_algo, outs), src)
        },
{
    // The admitted files.
    let ghost ev = file_views(entries@);
    let ghost pick_a = |i: int| admits_view(filter, ev[i]);
    let mut adm: Vec<FileEntry> = Vec::new();
    for i in 0..entries.len()
        invariant
            ev == file_views(entries@),
            pick_a == (|i: int| admits_view(filter, ev[i])),
            file_views(adm@) == picked(ev.take(i as int), pick_a),
            size_sum(file_views(adm@)) <= size_sum(ev.take(i as int)),
    {
        proof {
            assert(ev.take(i + 1) =~= ev.take(i as int).push(ev[i as int]));
            lemma_picked_push(ev.take(i as int), ev[i as int], pick_a);
            lemma_size_sum_push(ev.take(i as int), ev[i as int]);
        }
        if filter.admits(entries[i].path.as_str(), entries[i].size) {
            let ghost before = adm@;
            adm.push(entries[i].duplicate());
            assert(file_views(adm@) =~= file_views(before).push(ev[i as int]));
            proof {
                lemma_size_sum_push(file_views(before), ev[i as int]);
            }
        }
    }
    assert(ev.take(entries.len() as int) =~= ev);
    let ghost a = file_views(adm@);
    assert(a == admitted(filter, ev));
    // The candidates.
    let c = size_prefilter(&adm);
    let ghost cands = file_views(c@);
    proof {
        lemma_size_shared_views(adm@);
        crate::model::lemma_picked_agree(a, |i: int| size_shared(adm@, i), |i: int| size_shared_view(a, i));
        assert(cands == scan_candidates(filter, ev));
        crate::model::lemma_picked_size_sum(a, |i: int| size_shared_view(a, i));
    }
    // Read and hash each candidate once.
    let mut hashed: Vec<HashedFile> = Vec::new();
    let ghost mut outs: Seq<Result<Seq<u8>, Seq<char>>> = seq![];
    let ghost mut pos: Seq<int> = seq![];
    for k in 0..c.len()
        invariant
            cands == file_views(c@),
            forall|p: &str| read.requires((p,)),
            outs.len() == k,
            forall|m: int| 0 <= m < k ==> read_gave(read, cands[m].path, #[trigger] outs[m]),
            pos.len() == hashed.len(),
            forall|j: int| 0 <= j < pos.len() ==> 0 <= #[trigger] pos[j] < k,
            forall|j1: int, j2: int| 0 <= j1 < j2 < pos.len() ==> #[trigger] pos[j1] < #[trigger] pos[j2],
            forall|j: int| 0 <= j < pos.len() ==> (#[trigger] hashed@[j]).file@ == cands[pos[j]],
            forall|j: int| 0 <= j < pos.len() ==> (#[trigger] outs[pos[j]]) is Ok,
            forall|j: int| 0 <= j < pos.len() ==> (#[trigger] hashed@[j]).digest@ == digest_text(filter.hash_algo, read_contents(outs[pos[j]])),
            forall|m: int| 0 <= m < k && (#[trigger] outs[m]) is Ok ==> exists|j: int| 0 <= j < pos.len() && pos[j] == m,
            size_sum(hashed_sizes(hashed@)) <= size_sum(cands.take(k as int)),
    {
        let p = c[k].path.as_str();
        let res = read(p);
        let ghost out: Result<Seq<u8>, Seq<char>> = match &res {
            Ok(d) => Ok::<Seq<u8>, Seq<char>>(d@),
            Err(e) => Err::<Seq<u8>, Seq<char>>(e@),
        };
        assert(read_gave(read, cands[k as int].path, out));
        proof {
            assert(cands.take(k + 1) =~= cands.take(k as int).push(cands[k as int]));
            lemma_size_sum_push(cands.take(k as int), cands[k as int]);
        }
        let ghost old_outs = outs;
        let ghost old_h = hashed@;
        let ghost old_pos = pos;
        match res {
            Ok(d) => {
                let digest = digest_hex(filter.hash_algo, d.as_slice());
                hashed.push(HashedFile { file: c[k].duplicate(), digest });
                assert(out is Ok && read_contents(out) == d@);
            },
            Err(_) => {},
        }
        proof {
            outs = old_outs.push(out);
            if out is Ok {
                pos = old_pos.push(k as int);
                assert(hashed@ == old_h.push(hashed@.last()));
                assert(hashed@.last().file@ == cands[k as int]);
                assert(hashed@.last().digest@ == digest_text(filter.hash_algo, read_contents(out)));
                assert(hashed_sizes(hashed@) =~= hashed_sizes(old_h).push(cands[k as int]));
                lemma_size_sum_push(hashed_sizes(old_h), cands[k as int]);
            } else {
                assert(hashed@ == old_h);
            }
            assert forall|m: int| 0 <= m < k + 1 && (#[trigger] outs[m]) is Ok implies exists|j: int| 0 <= j < pos.len() && pos[j] == m by {
                if m < k {
                    assert(old_outs[m] == outs[m]);
                    assert(old_outs[m] is Ok);
                    let j = choose|j: int| 0 <= j < old_pos.len() && old_pos[j] == m;
                    assert(pos[j] == m);
                } else {
                    assert(pos[pos.len() - 1] == m);
                }
            }
            assert forall|j: int| 0 <= j < pos.len() implies (#[trigger] hashed@[j]).file@ == cands[pos[j]] && outs[pos[j]] is Ok
                && hashed@[j].digest@ == digest_text(filter.hash_algo, read_contents(outs[pos[j]])) by {
                if j < old_pos.len() {
                    assert(hashed@[j] == old_h[j]);
                    assert(pos[j] == old_pos[j]);
                    assert(0 <= old_pos[j] < k);
                    assert(outs[old_pos[j]] == old_outs[old_pos[j]]);
                } else {
                    assert(pos[j] == k);
                    assert(outs[k as int] == out);
                }
            }
            assert forall|j1: int, j2: int| 0 <= j1 < j2 < pos.len() implies #[trigger] pos[j1] < #[trigger] pos[j2] by {
                if j2 < old_pos.len() {
                    assert(old_pos[j1] < old_pos[j2]);
                } else {
                    assert(0 <= old_pos[j1] < k);
                }
            }
            assert forall|m: int| 0 <= m < k + 1 implies read_gave(read, cands[m].path, #[trigger] outs[m]) by {
                if m < k {
                    assert(old_outs[m] == outs[m]);
                }
            }
        }
    }
    assert(cands.take(c.len() as int) =~= cands);
    let r = duplicate_folders(&hashed);
    proof {
        let src_h = choose|src_h: Seq<int>| lists_duplicates(all_files(r@), hashed@, src_h);
        lemma_scan_lists_shared(hashed@, pos, outs, cands, filter.hash_algo, all_files(r@), src_h);
    }
    r
}

/// What a scan lists: every listed file is one of the walked files and
/// passes the filter; and of any two different candidates (admitted files
/// whose size another admitted file shares) that were read to the same
/// contents, both are listed. A folder is thus listed exactly when it
/// directly holds such a file.
pub proof fn law_scan_lists_files_sharing_contents(
    filter: &ScanFilter,
    entries: Seq<FileView>,
    outs: Seq<Result<Seq<u8>, Seq<char>>>,
    v: Seq<FileView>,
    src: Seq<int>,
)
    requires
        outs.len() == scan_candidates(filter, entries).len(),
        lists_shared(v, scan_candidates(filter, entries), read_digests(filter.hash_algo, outs), src),
    ensures
        forall|t: int| 0 <= t < v.len() ==> admits_view(filter, #[trigger] v[t]) && entries.contains(v[t]),
        forall|k: int, l: int|
            0 <= k < outs.len() && 0 <= l < outs.len() && k != l && (#[trigger] outs[k]) is Ok && (#[trigger] outs[l]) is Ok
                && read_contents(outs[k]) == read_contents(outs[l])
                ==> exists|t: int| 0 <= t < src.len() && src[t] == k,
        forall|t: int| 0 <= t < src.len() ==> (#[trigger] outs[src[t]]) is Ok && exists|l: int|
            0 <= l < outs.len() && l != src[t] && (#[trigger] outs[l]) is Ok && match filter.hash_algo {
                HashAlgo::Md5 => md5_of(read_contents(outs[l])) == md5_of(read_contents(outs[src[t]])),
                HashAlgo::Xxhash => xxh64_of(read_contents(outs[l]), 0) == xxh64_of(read_contents(outs[src[t]]), 0),
                HashAlgo::Sha256 => sha256_of(read_contents(outs[l])) == sha256_of(read_contents(outs[src[t]])),
            },
{
    let cands = scan_candidates(filter, entries);
    let a = admitted(filter, entries);
    let ds = read_digests(filter.hash_algo, outs);
    crate::model::lemma_picked_from(a, |i: int| size_shared_view(a, i));
    crate::model::lemma_picked_from(entries, |i: int| admits_view(filter, entries[i]));
    assert forall|t: int| 0 <= t < v.len() implies admits_view(filter, #[trigger] v[t]) && entries.contains(v[t]) by {
        let k = src[t];
        assert(v[t] == cands[k]);
        assert(picked(a, |i: int| size_shared_view(a, i))[k] == cands[k]);
        let i = choose|i: int| 0 <= i < a.len() && (|i: int| size_shared_view(a, i))(i) && #[trigger] a[i] == picked(a, |i: int| size_shared_view(a, i))[k];
        assert(picked(entries, |i: int| admits_view(filter, entries[i]))[i] == a[i]);
        let e = choose|e: int| 0 <= e < entries.len() && (|i: int| admits_view(filter, entries[i]))(e)
            && #[trigger] entries[e] == picked(entries, |i: int| admits_view(filter, entries[i]))[i];
        assert(entries[e] == v[t]);
    }
    assert forall|k: int, l: int|
        0 <= k < outs.len() && 0 <= l < outs.len() && k != l && (#[trigger] outs[k]) is Ok && (#[trigger] outs[l]) is Ok
            && read_contents(outs[k]) == read_contents(outs[l])
        implies exists|t: int| 0 <= t < src.len() && src[t] == k by {
        assert(ds[l] == ds[k]);
        assert(shares_digest(ds, k));
        let t = choose|t: int| 0 <= t < src.len() && #[trigger] src[t] == k;
    }
    assert forall|t: int| 0 <= t < src.len() implies (#[trigger] outs[src[t]]) is Ok && exists|l: int|
        0 <= l < outs.len() && l != src[t] && (#[trigger] outs[l]) is Ok && match filter.hash_algo {
            HashAlgo::Md5 => md5_of(read_contents(outs[l])) == md5_of(read_contents(outs[src[t]])),
            HashAlgo::Xxhash => xxh64_of(read_contents(outs[l]), 0) == xxh64_of(read_contents(outs[src[t]]), 0),
            HashAlgo::Sha256 => sha256_of(read_contents(outs[l])) == sha256_of(read_contents(outs[src[t]])),
        } by {
        let k = src[t];
        assert(shares_digest(ds, k));
        let l = choose|l: int| 0 <= l < ds.len() && l != k && #[trigger] ds[l] == ds[k];
        assert(outs[k] is Ok);
        assert(outs[l] is Ok);
        crate::digest::law_digest_text_is_the_hash_of_the_contents(filter.hash_algo, read_contents(outs[l]), read_contents(outs[k]));
    }
}

} // verus!
