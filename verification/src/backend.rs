//! The duplicate report of the HTTP back end: files under a root folder
//! that pass the request's filters, grouped by content hash, groups with
//! more than one file, most copies first.
use vstd::prelude::*;
use crate::order::{KeyOrder, NumberKeys, TextKeys, rank_all, ranked, covers, lemma_ranked_distinct, run_bounds, runs_of};
use crate::path::{last_dot, path_starts_with, path_steps, starts_with, steps, texts};
use crate::text::{chars_eq, chars_of, slice_chars, string_of, trim_chars, trimmed};
use crate::cli::{all_digits, digits_value};
use crate::move_files::string_views;

verus! {

#[verifier::external_type_specification]
#[verifier::external_body]
pub struct ExSystemTime(std::time::SystemTime);

#[verifier::external_type_specification]
#[verifier::external_body]
pub struct ExNaiveDateTime(chrono::NaiveDateTime);

/// What a duplicate search looks at.
#[derive(Debug, Clone)]
pub struct Config {
    pub root_folder: String,
    pub target_folder: String,
    pub skip_folders: Vec<String>,
    pub skip_filenames: Vec<String>,
    pub min_file_size: u64,
    pub consider_extensions: Vec<String>,
}

/// The state the back end's handlers share: the configuration it started with.
#[derive(Debug, Clone)]
pub struct AppState {
    pub default_config: Config,
}

/// A file found by the back end.
#[derive(Debug)]
pub struct AFile {
    pub file_name: String,
    pub file_size: u64,
    pub created: std::time::SystemTime,
    pub chrono_created: chrono::NaiveDateTime,
    pub path: String,
}

/// Files with the same content hash.
#[derive(Debug)]
pub struct DuplicateFiles {
    pub hash: String,
    pub paths: Vec<AFile>,
    pub cnt_duplicates: usize,
}

// ---------------------------------------------------------------------------
// Settings read from the environment
// ---------------------------------------------------------------------------

/// The separators of a list setting: space, comma and semicolon.
pub open spec fn is_list_sep(c: char) -> bool {
    c == ' ' || c == ',' || c == ';'
}

/// The pieces of `s` between separators, as `str::split` gives them: one
/// more piece than there are separators.
pub open spec fn split_pieces(s: Seq<char>) -> Seq<Seq<char>>
    decreases s.len(),
{
    if s.len() == 0 {
        seq![Seq::<char>::empty()]
    } else {
        let p = split_pieces(s.drop_last());
        if is_list_sep(s.last()) {
            p.push(Seq::<char>::empty())
        } else {
            p.update(p.len() - 1, p.last().push(s.last()))
        }
    }
}

/// The pieces, trimmed, without the empty ones.
pub open spec fn nonempty_trimmed(pieces: Seq<Seq<char>>) -> Seq<Seq<char>>
    decreases pieces.len(),
{
    if pieces.len() == 0 {
        seq![]
    } else {
        let r = nonempty_trimmed(pieces.drop_last());
        if trimmed(pieces.last()).len() > 0 {
            r.push(trimmed(pieces.last()))
        } else {
            r
        }
    }
}

/// The items of a list setting.
pub open spec fn list_items_of(s: Seq<char>) -> Seq<Seq<char>> {
    nonempty_trimmed(split_pieces(s))
}

proof fn lemma_split_pieces_len(s: Seq<char>)
    ensures
        split_pieces(s).len() >= 1,
    decreases s.len(),
{
    if s.len() > 0 {
        lemma_split_pieces_len(s.drop_last());
    }
}

proof fn lemma_nonempty_trimmed_push(p: Seq<Seq<char>>, x: Seq<char>)
    ensures
        nonempty_trimmed(p.push(x)) == if trimmed(x).len() > 0 {
            nonempty_trimmed(p).push(trimmed(x))
        } else {
            nonempty_trimmed(p)
        },
{
    assert(p.push(x).drop_last() =~= p);
}

/// The items of a list setting: the text split at spaces, commas and
/// semicolons, each piece trimmed, empty pieces dropped.
pub fn list_items(s: &str) -> (r: Vec<String>)
    ensures
        string_views(r@) == list_items_of(s@),
{
    let v = chars_of(s);
    let mut out: Vec<String> = Vec::new();
    let mut cur: Vec<char> = Vec::new();
    let ghost mut done: Seq<Seq<char>> = seq![];
    for i in 0..v.len()
        invariant
            v@ == s@,
            split_pieces(v@.take(i as int)) == done.push(cur@),
            string_views(out@) == nonempty_trimmed(done),
    {
        let c = v[i];
        proof {
            assert(v@.take(i + 1).drop_last() =~= v@.take(i as int));
            assert(v@.take(i + 1).last() == c);
        }
        if c == ' ' || c == ',' || c == ';' {
            let t = trim_chars(&cur);
            proof {
                lemma_nonempty_trimmed_push(done, cur@);
            }
            if t.len() > 0 {
                let ghost before = out@;
                out.push(string_of(&t));
                assert(string_views(out@) =~= string_views(before).push(t@));
            }
            proof {
                done = done.push(cur@);
            }
            cur = Vec::new();
            assert(split_pieces(v@.take(i + 1)) =~= done.push(cur@));
        } else {
            let ghost before = cur@;
            cur.push(c);
            assert(split_pieces(v@.take(i + 1)) =~= done.push(cur@)) by {
                assert(done.push(before).update(done.len() as int, before.push(c)) =~= done.push(cur@));
            }
        }
    }
    assert(v@.take(v.len() as int) =~= v@);
    let t = trim_chars(&cur);
    proof {
        lemma_nonempty_trimmed_push(done, cur@);
    }
    if t.len() > 0 {
        let ghost before = out@;
        out.push(string_of(&t));
        assert(string_views(out@) =~= string_views(before).push(t@));
    }
    out
}

/// The number a `u64` setting is written as (`u64::from_str`): an optional
/// `+`, then one or more ASCII digits, at most `u64::MAX`.
pub open spec fn u64_value_of(s: Seq<char>) -> Option<u64> {
    let d = if s.len() > 0 && s[0] == '+' {
        s.drop_first()
    } else {
        s
    };
    if d.len() > 0 && all_digits(d) && digits_value(d) <= u64::MAX {
        Some(digits_value(d) as u64)
    } else {
        None
    }
}

proof fn lemma_digits_value_prefix(s: Seq<char>, j: int, k: int)
    requires
        0 <= j <= k <= s.len(),
    ensures
        digits_value(s.take(j)) <= digits_value(s.take(k)),
    decreases k - j,
{
    if j < k {
        lemma_digits_value_prefix(s, j, k - 1);
        assert(s.take(k).drop_last() =~= s.take(k - 1));
    }
}

/// Parses a `u64` setting; `None` where `u64::from_str` fails.
pub fn parse_u64(s: &str) -> (r: Option<u64>)
    ensures
        r == u64_value_of(s@),
{
    let v = chars_of(s);
    let start: usize = if v.len() > 0 && v[0] == '+' { 1 } else { 0 };
    let ghost d = if s@.len() > 0 && s@[0] == '+' { s@.drop_first() } else { s@ };
    assert(d =~= v@.skip(start as int));
    if start == v.len() {
        return None;
    }
    let mut value: u64 = 0;
    let mut i: usize = start;
    while i < v.len()
        invariant
            v@ == s@,
            start <= i <= v.len(),
            start < v.len(),
            d == v@.skip(start as int),
            d == (if s@.len() > 0 && s@[0] == '+' { s@.drop_first() } else { s@ }),
            all_digits(d.take(i - start)),
            value == digits_value(d.take(i - start)),
        decreases v.len() - i,
    {
        let c = v[i];
        assert(d[i - start] == c);
        if !('0' <= c && c <= '9') {
            assert(!crate::text::is_ascii_digit(d[i - start]));
            return None;
        }
        let digit = crate::cli::digit_of(c);
        assert(d.take(i + 1 - start).drop_last() =~= d.take(i - start));
        assert(d.take(i + 1 - start).last() == c);
        if value > (u64::MAX - digit) / 10 {
            proof {
                assert(value * 10 + digit > u64::MAX) by (nonlinear_arith)
                    requires
                        value > (u64::MAX - digit) / 10,
                        digit < 10,
                ;
                lemma_digits_value_prefix(d, i + 1 - start, d.len() as int);
                assert(d.take(d.len() as int) =~= d);
            }
            return None;
        }
        assert(value * 10 + digit <= u64::MAX) by (nonlinear_arith)
            requires
                value <= (u64::MAX - digit) / 10,
                digit < 10,
        ;
        value = value * 10 + digit;
        i = i + 1;
    }
    assert(d.take(d.len() as int) =~= d);
    Some(value)
}

// ---------------------------------------------------------------------------
// Which files are considered
// ---------------------------------------------------------------------------

/// The extension of a file name: what follows its last `.` (empty when
/// there is no `.`).
pub open spec fn extension_text(s: Seq<char>) -> Seq<char> {
    if last_dot(s) >= 0 {
        s.skip(last_dot(s) + 1)
    } else {
        Seq::empty()
    }
}

/// The extension of a file name: the last of its `.`-separated parts, or
/// `""` if it has a single part.
pub fn extract_extension(s: &str) -> (r: String)
    ensures
        r@ == extension_text(s@),
{
    let v = chars_of(s);
    let mut i = v.len();
    assert(v@.take(v.len() as int) =~= v@);
    while i > 0
        invariant
            v@ == s@,
            i <= v.len(),
            last_dot(v@) == last_dot(v@.take(i as int)),
        decreases i,
    {
        assert(v@.take(i as int).drop_last() =~= v@.take(i - 1));
        if v[i - 1] == '.' {
            assert(v@.take(i as int).last() == '.');
            assert(v@.take(i as int).len() == i);
            assert(last_dot(v@.take(i as int)) == i - 1);
            assert(last_dot(v@) == i - 1);
            assert(extension_text(v@) == v@.skip(i as int));
            let e = slice_chars(&v, i, v.len());
            assert(e@ =~= v@.skip(i as int));
            return string_of(&e);
        }
        i = i - 1;
    }
    assert(v@.take(0) =~= Seq::<char>::empty());
    String::new()
}

/// A path lies in the skipped folder `folder`: one of its steps is named
/// `folder`, or it lies under `folder` given as a (non-empty) path.
pub open spec fn skipped_by(path: Seq<char>, folder: Seq<char>) -> bool {
    ||| exists|j: int| 0 <= j < path_steps(path).len() && #[trigger] path_steps(path)[j] == folder
    ||| (folder.len() > 0 && starts_with(path, folder))
}

/// Some step of `st` equals `name`.
fn has_step(st: &Vec<Vec<char>>, name: &Vec<char>) -> (r: bool)
    ensures
        r == exists|j: int| 0 <= j < st.len() && #[trigger] st@[j]@ == name@,
{
    for j in 0..st.len()
        invariant
            forall|k: int| 0 <= k < j ==> #[trigger] st@[k]@ != name@,
    {
        if chars_eq(&st[j], name) {
            return true;
        }
    }
    false
}

impl Config {
    /// The path lies in one of the skip folders.
    pub open spec fn skips(&self, path: Seq<char>) -> bool {
        exists|i: int| 0 <= i < self.skip_folders.len() && skipped_by(path, #[trigger] self.skip_folders@[i]@)
    }

    /// A regular file with this path, name and size takes part in the
    /// search: it lies in no skip folder, it is larger than the minimum,
    /// and its extension is one of those considered.
    pub open spec fn considers_file(&self, path: Seq<char>, name: Seq<char>, size: u64) -> bool {
        &&& !self.skips(path)
        &&& size > self.min_file_size
        &&& string_views(self.consider_extensions@).contains(extension_text(name))
    }

    /// Whether a regular file takes part in the search.
    pub fn considers(&self, path: &str, name: &str, size: u64) -> (r: bool)
        ensures
            r == self.considers_file(path@, name@, size),
    {
        let pv = chars_of(path);
        let st = steps(&pv);
        for i in 0..self.skip_folders.len()
            invariant
                texts(st@) == path_steps(path@),
                forall|j: int| 0 <= j < i ==> !skipped_by(path@, #[trigger] self.skip_folders@[j]@),
        {
            let folder = chars_of(self.skip_folders[i].as_str());
            let named = has_step(&st, &folder);
            proof {
                assert forall|j: int| 0 <= j < st.len() implies #[trigger] path_steps(path@)[j] == st@[j]@ by {
                    assert(texts(st@)[j] == st@[j]@);
                }
                if named {
                    let j = choose|j: int| 0 <= j < st.len() && #[trigger] st@[j]@ == folder@;
                    assert(path_steps(path@)[j] == folder@);
                }
                if exists|j: int| 0 <= j < path_steps(path@).len() && #[trigger] path_steps(path@)[j] == folder@ {
                    let j = choose|j: int| 0 <= j < path_steps(path@).len() && #[trigger] path_steps(path@)[j] == folder@;
                    assert(st@[j]@ == folder@);
                }
            }
            if named || (folder.len() > 0 && path_starts_with(path, self.skip_folders[i].as_str())) {
                return false;
            }
        }
        if !(size > self.min_file_size) {
            return false;
        }
        let ext = extract_extension(name);
        let ev = chars_of(ext.as_str());
        for i in 0..self.consider_extensions.len()
            invariant
                ev@ == extension_text(name@),
                !self.skips(path@),
                size > self.min_file_size,
                forall|j: int| 0 <= j < i ==> #[trigger] self.consider_extensions@[j]@ != ev@,
        {
            let c = chars_of(self.consider_extensions[i].as_str());
            if chars_eq(&c, &ev) {
                assert(string_views(self.consider_extensions@)[i as int] == ev@);
                return true;
            }
        }
        assert forall|j: int| 0 <= j < self.consider_extensions.len() implies string_views(self.consider_extensions@)[j] != ev@ by {
            assert(string_views(self.consider_extensions@)[j] == self.consider_extensions@[j]@);
        }
        false
    }
}


// ---------------------------------------------------------------------------
// Grouping by hash
// ---------------------------------------------------------------------------

/// `g` holds, in input order, exactly the files whose hash is `g.hash`,
/// more than one, and counts them.
pub open spec fn is_hash_group(hashes: Seq<String>, files: Seq<AFile>, g: DuplicateFiles) -> bool {
    &&& g.cnt_duplicates == g.paths.len()
    &&& g.paths.len() >= 2
    &&& exists|idx: Seq<int>| {
        &&& idx.len() == g.paths.len()
        &&& forall|k: int| 0 <= k < idx.len() ==> 0 <= #[trigger] idx[k] < hashes.len() && hashes[idx[k]]@ == g.hash@
            && g.paths@[k] == files[idx[k]]
        &&& forall|k: int, l: int| 0 <= k < l < idx.len() ==> #[trigger] idx[k] < #[trigger] idx[l]
        &&& forall|i: int| 0 <= i < hashes.len() && #[trigger] hashes[i]@ == g.hash@ ==> idx.contains(i)
    }
}

/// Some other file has the hash of file `i`.
pub open spec fn hash_shared(hashes: Seq<String>, i: int) -> bool {
    exists|j: int| 0 <= j < hashes.len() && j != i && #[trigger] hashes[j]@ == hashes[i]@
}

/// The duplicate groups of a search: one per hash shared by several files,
/// each holding those files in input order, groups with more copies first.
pub open spec fn duplicate_groups(hashes: Seq<String>, files: Seq<AFile>, r: Seq<DuplicateFiles>) -> bool {
    &&& forall|g: int| 0 <= g < r.len() ==> is_hash_group(hashes, files, #[trigger] r[g])
    &&& forall|g: int, h: int| 0 <= g < h < r.len() ==> (#[trigger] r[g]).hash@ != (#[trigger] r[h]).hash@
    &&& forall|i: int| 0 <= i < hashes.len() && hash_shared(hashes, i) ==> exists|g: int| 0 <= g < r.len() && (#[trigger] r[g]).hash@ == hashes[i]@
    &&& forall|g: int, h: int| 0 <= g < h < r.len() ==> (#[trigger] r[g]).cnt_duplicates >= (#[trigger] r[h]).cnt_duplicates
}

/// The files whose hash occurs more than once, grouped by hash; groups
/// with more copies come first.
pub fn group_duplicates(hashes: &Vec<String>, files: Vec<AFile>) -> (r: Vec<DuplicateFiles>)
    requires
        hashes.len() == files.len(),
    ensures
        duplicate_groups(hashes@, files@, r@),
{
    let groups = hash_runs(hashes, files);
    order_by_count(groups, Ghost(hashes@), Ghost(files@))
}

fn hash_runs(hashes: &Vec<String>, files: Vec<AFile>) -> (r: Vec<DuplicateFiles>)
    requires
        hashes.len() == files.len(),
    ensures
        forall|g: int| 0 <= g < r.len() ==> is_hash_group(hashes@, files@, #[trigger] r@[g]),
        forall|g: int, h: int| 0 <= g < h < r.len() ==> (#[trigger] r@[g]).hash@ != (#[trigger] r@[h]).hash@,
        forall|i: int| 0 <= i < hashes.len() && hash_shared(hashes@, i) ==> exists|g: int| 0 <= g < r.len() && (#[trigger] r@[g]).hash@ == hashes@[i]@,
{
    let n = hashes.len();
    let ghost hs = hashes@;
    let ghost fs = files@;
    let mut keys: Vec<Vec<char>> = Vec::new();
    for i in 0..n
        invariant
            n == hashes.len(),
            keys.len() == i,
            forall|j: int| 0 <= j < i ==> (#[trigger] keys@[j])@ == hashes@[j]@,
    {
        keys.push(chars_of(hashes[i].as_str()));
    }
    let order = TextKeys { primary: keys, secondary: Vec::new() };
    let s = rank_all(&order);
    let bounds = run_bounds(&order, &s);
    proof {
        lemma_ranked_distinct(&order, s@);
    }
    let mut slots: Vec<Option<AFile>> = Vec::new();
    for f in it: files.into_iter()
        invariant
            it.seq() == fs,
            slots.len() == it.index(),
            forall|j: int| 0 <= j < slots.len() ==> #[trigger] slots@[j] == Some(fs[j]),
    {
        slots.push(Some(f));
    }
    let m = bounds.len();
    let mut groups: Vec<DuplicateFiles> = Vec::new();
    let mut r: usize = 0;
    while r + 1 < m
        invariant
            n == hashes.len(),
            n == fs.len(),
            hs == hashes@,
            order.primary.len() == n,
            order.secondary.len() == 0,
            forall|j: int| 0 <= j < n ==> (#[trigger] order.primary@[j])@ == hashes@[j]@,
            s.len() == n,
            ranked(&order, s@),
            covers(s@, 0, n as int),
            forall|i: int, j: int| 0 <= i < s.len() && 0 <= j < s.len() && i != j ==> s@[i] != s@[j],
            runs_of(&order, s@, bounds@),
            m == bounds.len(),
            r + 1 <= m,
            slots.len() == n,
            forall|q: int| bounds@[r as int] <= q < n ==> #[trigger] slots@[s@[q] as int] == Some(fs[s@[q] as int]),
            forall|g: int| 0 <= g < groups.len() ==> is_hash_group(hs, fs, #[trigger] groups@[g]),
            forall|g: int| 0 <= g < groups.len() ==> exists|q: int| 0 <= q < bounds@[r as int] && (#[trigger] groups@[g]).hash@ == hs[s@[q] as int]@,
            forall|g: int, h: int| 0 <= g < h < groups.len() ==> (#[trigger] groups@[g]).hash@ != (#[trigger] groups@[h]).hash@,
            forall|q: int| 0 <= q < bounds@[r as int] && hash_shared(hs, #[trigger] s@[q] as int) ==> exists|g: int| 0 <= g < groups.len() && (#[trigger] groups@[g]).hash@ == hs[s@[q] as int]@,
        decreases m - r,
    {
        let a = bounds[r];
        let e = bounds[r + 1];
        proof {
            assert(bounds@[r as int] < bounds@[r + 1]);
            if r + 2 < m {
                assert(bounds@[r + 1] < bounds@[m - 1]);
            }
            assert(e <= n);
            assert forall|q: int| 0 <= q < n implies (#[trigger] hs[s@[q] as int]@ == hs[s@[a as int] as int]@ <==> a <= q < e) by {
                assert(order.same(s@[bounds@[r as int] as int] as int, s@[q] as int) <==> bounds@[r as int] <= q < bounds@[r + 1]);
            }
        }
        let ghost before_groups = groups@;
        if e - a >= 2 {
            proof {
                lemma_run_in_index_order(&order, s@, a as int, e as int);
            }
            let g = run_group(hashes, &mut slots, &s, a, e, Ghost(fs));
            groups.push(g);
            proof {
                assert forall|x: int, y: int| 0 <= x < y < groups.len() implies (#[trigger] groups@[x]).hash@ != (#[trigger] groups@[y]).hash@ by {
                    if y == groups.len() - 1 {
                        assert(groups@[x] == before_groups[x]);
                        let q = choose|q: int| 0 <= q < a && (#[trigger] before_groups[x]).hash@ == hs[s@[q] as int]@;
                        assert(hs[s@[q] as int]@ != hs[s@[a as int] as int]@);
                    } else {
                        assert(groups@[x] == before_groups[x]);
                        assert(groups@[y] == before_groups[y]);
                    }
                }
                assert forall|gg: int| 0 <= gg < groups.len() implies exists|q: int| 0 <= q < e && (#[trigger] groups@[gg]).hash@ == hs[s@[q] as int]@ by {
                    if gg == groups.len() - 1 {
                        assert(groups@[gg].hash@ == hs[s@[a as int] as int]@);
                    } else {
                        assert(groups@[gg] == before_groups[gg]);
                        let q = choose|q: int| 0 <= q < a && (#[trigger] before_groups[gg]).hash@ == hs[s@[q] as int]@;
                        assert(q < e);
                    }
                }
                assert forall|q: int| 0 <= q < e && hash_shared(hs, #[trigger] s@[q] as int) implies exists|gg: int| 0 <= gg < groups.len() && (#[trigger] groups@[gg]).hash@ == hs[s@[q] as int]@ by {
                    if q >= a {
                        assert(hs[s@[q] as int]@ == hs[s@[a as int] as int]@);
                        assert(groups@[groups.len() - 1].hash@ == hs[s@[q] as int]@);
                    } else {
                        let gg = choose|gg: int| 0 <= gg < before_groups.len() && (#[trigger] before_groups[gg]).hash@ == hs[s@[q] as int]@;
                        assert(groups@[gg] == before_groups[gg]);
                    }
                }
                assert forall|g: int| 0 <= g < groups.len() implies is_hash_group(hs, fs, #[trigger] groups@[g]) by {
                    if g < before_groups.len() {
                        assert(groups@[g] == before_groups[g]);
                    }
                }
            }
        } else {
            proof {
                assert forall|q: int| 0 <= q < e && hash_shared(hs, #[trigger] s@[q] as int) implies exists|gg: int| 0 <= gg < groups.len() && (#[trigger] groups@[gg]).hash@ == hs[s@[q] as int]@ by {
                    if q >= a {
                        assert(q == a);
                        let j = choose|j: int| 0 <= j < hs.len() && j != s@[q] as int && #[trigger] hs[j]@ == hs[s@[q] as int]@;
                        assert(s@.contains(j as usize));
                        let q2 = choose|q2: int| 0 <= q2 < n && s@[q2] == j as usize;
                        assert(hs[s@[q2] as int]@ == hs[s@[a as int] as int]@);
                        assert(false);
                    }
                }
                assert forall|gg: int| 0 <= gg < groups.len() implies exists|q: int| 0 <= q < e && (#[trigger] groups@[gg]).hash@ == hs[s@[q] as int]@ by {
                    let q = choose|q: int| 0 <= q < a && (#[trigger] groups@[gg]).hash@ == hs[s@[q] as int]@;
                    assert(q < e);
                }
            }
        }
        r = r + 1;
    }
    proof {
        assert(bounds@[r as int] == n);
        assert forall|i: int| 0 <= i < hashes.len() && hash_shared(hashes@, i) implies exists|g: int| 0 <= g < groups.len() && (#[trigger] groups@[g]).hash@ == hashes@[i]@ by {
            assert(s@.contains(i as usize));
            let q = choose|q: int| 0 <= q < n && s@[q] == i as usize;
            assert(hash_shared(hs, s@[q] as int));
        }
    }
    groups
}

/// Within a run of equal text keys with no secondary keys, positions are
/// in index order.
proof fn lemma_run_in_index_order(order: &TextKeys, s: Seq<usize>, a: int, e: int)
    requires
        order.secondary.len() == 0,
        ranked(order, s),
        0 <= a <= e <= s.len(),
        forall|q: int| a <= q < e ==> #[trigger] order.same(s[a] as int, s[q] as int),
    ensures
        forall|k: int, l: int| a <= k < l < e ==> #[trigger] s[k] < #[trigger] s[l],
{
    order.order_laws();
    assert forall|k: int, l: int| a <= k < l < e implies #[trigger] s[k] < #[trigger] s[l] by {
        assert(order.before(s[k] as int, s[l] as int));
        assert(order.same(s[a] as int, s[k] as int));
        assert(order.same(s[a] as int, s[l] as int));
        assert(order.same(s[k] as int, s[a] as int));
        assert(order.same(s[k] as int, s[l] as int));
        crate::text::lemma_text_lt_irreflexive(order.primary@[s[k] as int]@);
        crate::text::lemma_text_lt_irreflexive(crate::order::second_key(order.secondary@, s[k] as int));
        assert(crate::order::second_key(order.secondary@, s[k] as int) == crate::order::second_key(order.secondary@, s[l] as int));
    }
}

/// The group of the run `s[a..e]`: its files, taken out of their slots in
/// index order.
fn run_group(hashes: &Vec<String>, slots: &mut Vec<Option<AFile>>, s: &Vec<usize>, a: usize, e: usize, fs: Ghost<Seq<AFile>>) -> (g: DuplicateFiles)
    requires
        a + 2 <= e <= s.len(),
        hashes.len() == s.len(),
        old(slots).len() == s.len(),
        fs@.len() == s.len(),
        covers(s@, 0, s.len() as int),
        forall|i: int, j: int| 0 <= i < s.len() && 0 <= j < s.len() && i != j ==> s@[i] != s@[j],
        forall|x: int| a <= x < s.len() ==> #[trigger] old(slots)@[s@[x] as int] == Some(fs@[s@[x] as int]),
        forall|q: int| 0 <= q < s.len() ==> (#[trigger] hashes@[s@[q] as int]@ == hashes@[s@[a as int] as int]@ <==> a <= q < e),
        forall|k: int, l: int| a <= k < l < e ==> #[trigger] s@[k] < #[trigger] s@[l],
    ensures
        is_hash_group(hashes@, fs@, g),
        g.hash@ == hashes@[s@[a as int] as int]@,
        final(slots).len() == s.len(),
        forall|x: int| e <= x < s.len() ==> #[trigger] final(slots)@[s@[x] as int] == Some(fs@[s@[x] as int]),
{
    let paths = take_files(slots, s, a, e, fs);
    let count = paths.len();
    let g = DuplicateFiles { hash: hashes[s[a]].clone(), paths, cnt_duplicates: count };
    let ghost hs = hashes@;
    let ghost n = s.len();
    let ghost idx: Seq<int> = Seq::new((e - a) as nat, |k: int| s@[a + k] as int);
    proof {
        assert forall|k: int, l: int| 0 <= k < l < idx.len() implies #[trigger] idx[k] < #[trigger] idx[l] by {
            assert(s@[a + k] < s@[a + l]);
        }
        assert forall|k: int| 0 <= k < idx.len() implies 0 <= #[trigger] idx[k] < hs.len() && hs[idx[k]]@ == g.hash@ && g.paths@[k] == fs@[idx[k]] by {
            assert(hs[s@[a + k] as int]@ == hs[s@[a as int] as int]@);
        }
        assert forall|i: int| 0 <= i < hs.len() && #[trigger] hs[i]@ == g.hash@ implies idx.contains(i) by {
            assert(s@.contains(i as usize));
            let q0 = choose|q0: int| 0 <= q0 < n && s@[q0] == i as usize;
            assert(hs[s@[q0] as int]@ == hs[s@[a as int] as int]@);
            assert(idx[q0 - a] == i);
        }
        assert(idx.len() == g.paths.len());
    }
    g
}

/// Moves the files at the ranked positions `a..b` out of their slots.
fn take_files(slots: &mut Vec<Option<AFile>>, s: &Vec<usize>, a: usize, b: usize, fs: Ghost<Seq<AFile>>) -> (paths: Vec<AFile>)
    requires
        a <= b <= s.len(),
        old(slots).len() == s.len(),
        fs@.len() == s.len(),
        covers(s@, 0, s.len() as int),
        forall|i: int, j: int| 0 <= i < s.len() && 0 <= j < s.len() && i != j ==> s@[i] != s@[j],
        forall|x: int| a <= x < s.len() ==> #[trigger] old(slots)@[s@[x] as int] == Some(fs@[s@[x] as int]),
    ensures
        final(slots).len() == s.len(),
        forall|x: int| b <= x < s.len() ==> #[trigger] final(slots)@[s@[x] as int] == Some(fs@[s@[x] as int]),
        paths.len() == b - a,
        forall|k: int| 0 <= k < paths.len() ==> #[trigger] paths@[k] == fs@[s@[a + k] as int],
{
    let n = s.len();
    let mut paths: Vec<AFile> = Vec::new();
    let mut q = a;
    while q < b
        invariant
            a <= q <= b <= n,
            n == s.len(),
            fs@.len() == n,
            slots.len() == n,
            covers(s@, 0, n as int),
            forall|i: int, j: int| 0 <= i < s.len() && 0 <= j < s.len() && i != j ==> s@[i] != s@[j],
            forall|x: int| q <= x < n ==> #[trigger] slots@[s@[x] as int] == Some(fs@[s@[x] as int]),
            paths.len() == q - a,
            forall|k: int| 0 <= k < paths.len() ==> #[trigger] paths@[k] == fs@[s@[a + k] as int],
        decreases b - q,
    {
        let mut taken: Option<AFile> = None;
        slots.set_and_swap(s[q], &mut taken);
        proof {
            assert forall|x: int| q + 1 <= x < n implies #[trigger] slots@[s@[x] as int] == Some(fs@[s@[x] as int]) by {
                assert(s@[x] != s@[q as int]);
            }
        }
        match taken {
            Some(f) => {
                paths.push(f);
            },
            None => {
                assert(false);
            },
        }
        q = q + 1;
    }
    paths
}

fn order_by_count(groups: Vec<DuplicateFiles>, hashes: Ghost<Seq<String>>, files: Ghost<Seq<AFile>>) -> (r: Vec<DuplicateFiles>)
    requires
        forall|g: int| 0 <= g < groups.len() ==> is_hash_group(hashes@, files@, #[trigger] groups@[g]),
        forall|g: int, h: int| 0 <= g < h < groups.len() ==> (#[trigger] groups@[g]).hash@ != (#[trigger] groups@[h]).hash@,
        forall|i: int| 0 <= i < hashes@.len() && hash_shared(hashes@, i) ==> exists|g: int| 0 <= g < groups.len() && (#[trigger] groups@[g]).hash@ == hashes@[i]@,
    ensures
        duplicate_groups(hashes@, files@, r@),
{
    let m = groups.len();
    let ghost gs = groups@;
    let mut counts: Vec<u64> = Vec::new();
    let mut slots: Vec<Option<DuplicateFiles>> = Vec::new();
    for g in it: groups.into_iter()
        invariant
            it.seq() == gs,
            counts.len() == it.index(),
            slots.len() == it.index(),
            forall|j: int| 0 <= j < counts.len() ==> #[trigger] counts@[j] == gs[j].cnt_duplicates,
            forall|j: int| 0 <= j < slots.len() ==> #[trigger] slots@[j] == Some(gs[j]),
    {
        counts.push(g.cnt_duplicates as u64);
        slots.push(Some(g));
    }
    let order = NumberKeys { keys: counts, descending: true };
    let s = rank_all(&order);
    proof {
        lemma_ranked_distinct(&order, s@);
    }
    let mut out: Vec<DuplicateFiles> = Vec::new();
    for q in 0..m
        invariant
            m == gs.len(),
            s.len() == m,
            slots.len() == m,
            order.keys.len() == m,
            forall|j: int| 0 <= j < m ==> #[trigger] order.keys@[j] == gs[j].cnt_duplicates,
            forall|i: int, j: int| 0 <= i < s.len() && 0 <= j < s.len() && i != j ==> s@[i] != s@[j],
            covers(s@, 0, m as int),
            forall|x: int| q <= x < m ==> #[trigger] slots@[s@[x] as int] == Some(gs[s@[x] as int]),
            out.len() == q,
            forall|k: int| 0 <= k < q ==> #[trigger] out@[k] == gs[s@[k] as int],
    {
        let mut taken: Option<DuplicateFiles> = None;
        slots.set_and_swap(s[q], &mut taken);
        proof {
            assert forall|x: int| q + 1 <= x < m implies #[trigger] slots@[s@[x] as int] == Some(gs[s@[x] as int]) by {
                assert(s@[x] != s@[q as int]);
            }
        }
        match taken {
            Some(g) => {
                out.push(g);
            },
            None => {
                assert(false);
            },
        }
    }
    proof {
        assert forall|g: int, h: int| 0 <= g < h < out.len() implies (#[trigger] out@[g]).cnt_duplicates >= (#[trigger] out@[h]).cnt_duplicates by {
            assert(order.before(s@[g] as int, s@[h] as int));
        }
        assert forall|g: int, h: int| 0 <= g < h < out.len() implies (#[trigger] out@[g]).hash@ != (#[trigger] out@[h]).hash@ by {
            assert(s@[g] != s@[h]);
            if s@[g] < s@[h] {
                assert(gs[s@[g] as int].hash@ != gs[s@[h] as int].hash@);
            } else {
                assert(gs[s@[h] as int].hash@ != gs[s@[g] as int].hash@);
            }
        }
        assert forall|i: int| 0 <= i < hashes@.len() && hash_shared(hashes@, i) implies exists|g: int| 0 <= g < out.len() && (#[trigger] out@[g]).hash@ == hashes@[i]@ by {
            let g0 = choose|g: int| 0 <= g < gs.len() && (#[trigger] gs[g]).hash@ == hashes@[i]@;
            assert(s@.contains(g0 as usize));
            let q = choose|q: int| 0 <= q < m && s@[q] == g0 as usize;
            assert(out@[q] == gs[g0]);
        }
    }
    out
}

} // verus!
