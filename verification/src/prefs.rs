//! Per-user preferences and how they combine with the command line.
//!
//! The preferences live in `<config dir>/dupe_finder/prefs.json` (the config
//! directory as the `dirs` crate finds it). They never hold `root` or
//! `target`, which belong to a single run. Command line and preferences are
//! merged as a union for lists (so `node_modules` always stays excluded)
//! while the command line wins for single values.
use vstd::prelude::*;
use crate::cli::{Cli, parse_bytes, parse_bytes_spec};
use crate::path::{join, join_of};
use crate::scan::{Glob, GlobError, HashAlgo, ScanFilter, glob_valid, glob_error_text};
use crate::model::picked;
use crate::text::{chars_eq, chars_of, concat_str, lower_chars, lowered, slice_chars, string_of};
use crate::move_files::string_views;

verus! {

/// Per-user preferences.
#[derive(Debug, Clone)]
pub struct Prefs {
    /// Directory names to always exclude (matched against any path component).
    pub exclude_components: Vec<String>,
    /// Absolute directory paths to always skip (prefix match).
    pub exclude_dirs: Vec<String>,
    /// Default min file size as a human string ("1MB", ...). `None` = no minimum.
    pub min_size: Option<String>,
    /// Always ignore files whose names match these globs.
    pub ignore_names: Vec<String>,
    /// Always ignore files with these extensions.
    pub ignore_exts: Vec<String>,
    /// Default include globs (empty = all files).
    pub include_patterns: Vec<String>,
    /// Bind address for the web UI.
    pub bind: String,
    /// Open the browser automatically.
    pub open_browser: bool,
}

/// The directory names excluded by default.
pub open spec fn default_components() -> Seq<Seq<char>> {
    seq![
        "node_modules"@, "target"@, ".git"@, ".svn"@, ".hg"@, "vendor"@, "__pycache__"@,
        ".venv"@, "venv"@, ".next"@, ".nuxt"@, ".cache"@, ".Trash"@,
    ]
}

/// The file names ignored by default: macOS metadata, AppleDouble
/// sidecars, Windows thumbnail caches and folder settings.
pub open spec fn default_names() -> Seq<Seq<char>> {
    seq![".DS_Store"@, "._*"@, "Thumbs.db"@, "desktop.ini"@]
}

/// The owned strings of a list of literals.
fn strings_of(items: &[&str]) -> (r: Vec<String>)
    ensures
        string_views(r@) == Seq::new(items@.len(), |i: int| items@[i]@),
{
    let mut r: Vec<String> = Vec::new();
    for i in 0..items.len()
        invariant
            string_views(r@) =~= Seq::new(i as nat, |k: int| items@[k]@),
    {
        let ghost before = r@;
        r.push(String::from_str(items[i]));
        assert(string_views(r@) =~= string_views(before).push(items@[i as int]@));
    }
    r
}

impl Prefs {
    /// node_modules, target, .git, .svn, .hg, vendor, __pycache__, .venv,
    /// venv, .next, .nuxt, .cache, .Trash.
    pub fn default_exclude_components() -> (r: Vec<String>)
        ensures
            string_views(r@) == default_components(),
    {
        let items = [
            "node_modules", "target", ".git", ".svn", ".hg", "vendor", "__pycache__", ".venv",
            "venv", ".next", ".nuxt", ".cache", ".Trash",
        ];
        let r = strings_of(&items);
        assert(string_views(r@) =~= default_components());
        r
    }

    /// "127.0.0.1:8787".
    pub fn default_bind() -> (r: String)
        ensures
            r@ == "127.0.0.1:8787"@,
    {
        String::from_str("127.0.0.1:8787")
    }

    /// The browser opens by default.
    pub fn default_open_browser() -> (r: bool)
        ensures
            r,
    {
        true
    }

    /// .DS_Store, ._*, Thumbs.db, desktop.ini: ignored by default so they
    /// never appear as duplicate candidates.
    pub fn default_ignore_names() -> (r: Vec<String>)
        ensures
            string_views(r@) == default_names(),
    {
        let items = [".DS_Store", "._*", "Thumbs.db", "desktop.ini"];
        let r = strings_of(&items);
        assert(string_views(r@) =~= default_names());
        r
    }

    /// The preferences of a user who has saved none.
    pub fn default_values() -> (r: Prefs)
        ensures
            string_views(r.exclude_components@) == default_components(),
            r.exclude_dirs@.len() == 0,
            r.min_size is None,
            string_views(r.ignore_names@) == default_names(),
            r.ignore_exts@.len() == 0,
            r.include_patterns@.len() == 0,
            r.bind@ == "127.0.0.1:8787"@,
            r.open_browser,
    {
        Prefs {
            exclude_components: Self::default_exclude_components(),
            exclude_dirs: Vec::new(),
            min_size: None,
            ignore_names: Self::default_ignore_names(),
            ignore_exts: Vec::new(),
            include_patterns: Vec::new(),
            bind: Self::default_bind(),
            open_browser: Self::default_open_browser(),
        }
    }

    /// Where the preferences are stored, under the given config directory.
    pub fn config_path_in(base: &str) -> (r: String)
        ensures
            r@ == join_of(join_of(base@, "dupe_finder"@), "prefs.json"@),
    {
        let dir = join(base, "dupe_finder");
        join(dir.as_str(), "prefs.json")
    }

    /// Where the preferences are stored, if the platform has a config
    /// directory: `config_path_in` of the directory `dirs::config_dir`
    /// reports, `None` when it reports none. Which it reports depends on the
    /// environment, so no clause says when the result is `None`.
    pub fn config_path() -> (r: Option<String>)
        ensures
            r matches Some(p) ==> exists|b: Seq<char>| p@ == join_of(join_of(b, "dupe_finder"@), "prefs.json"@),
    {
        match user_config_dir() {
            Some(base) => Some(Self::config_path_in(base.as_str())),
            None => None,
        }
    }
}

/// `dirs::config_dir`: the user's config directory, read from the
/// environment (`$XDG_CONFIG_HOME` or `$HOME/.config` on Linux), as text.
/// Nothing is claimed of the result, which depends on the environment.
#[verifier::external_body]
fn user_config_dir() -> Option<String> {
    match dirs::config_dir() {
        Some(p) => Some(p.to_string_lossy().into_owned()),
        None => None,
    }
}

// ---------------------------------------------------------------------------
// Merging the command line with the preferences
// ---------------------------------------------------------------------------

/// `a` followed by the items of `b` that are not yet in the list, in order.
pub open spec fn union_of(a: Seq<Seq<char>>, b: Seq<Seq<char>>) -> Seq<Seq<char>>
    decreases b.len(),
{
    if b.len() == 0 {
        a
    } else {
        let u = union_of(a, b.drop_last());
        if u.contains(b.last()) {
            u
        } else {
            u.push(b.last())
        }
    }
}

/// A merged list holds every item of both lists and nothing else, and
/// starts with the first list unchanged.
pub proof fn law_union_holds_both(a: Seq<Seq<char>>, b: Seq<Seq<char>>)
    ensures
        forall|x: Seq<char>| union_of(a, b).contains(x) <==> (a.contains(x) || b.contains(x)),
        union_of(a, b).take(a.len() as int) == a,
        a.len() <= union_of(a, b).len(),
    decreases b.len(),
{
    if b.len() > 0 {
        let init = b.drop_last();
        law_union_holds_both(a, init);
        let u = union_of(a, init);
        assert forall|x: Seq<char>| union_of(a, b).contains(x) <==> (a.contains(x) || b.contains(x)) by {
            if b.contains(x) && !init.contains(x) {
                let k = choose|k: int| 0 <= k < b.len() && b[k] == x;
                if k < init.len() {
                    assert(init[k] == x);
                }
                assert(x == b.last());
                if !u.contains(b.last()) {
                    assert(u.push(b.last())[u.len() as int] == x);
                }
            }
            if init.contains(x) {
                let k = choose|k: int| 0 <= k < init.len() && init[k] == x;
                assert(b[k] == x);
            }
            if !u.contains(b.last()) && u.push(b.last()).contains(x) {
                let k = choose|k: int| 0 <= k < u.len() + 1 && u.push(b.last())[k] == x;
                if k < u.len() {
                    assert(u[k] == x);
                } else {
                    assert(b[b.len() - 1] == x);
                }
            }
            if u.contains(x) && !u.contains(b.last()) {
                let k = choose|k: int| 0 <= k < u.len() && u[k] == x;
                assert(u.push(b.last())[k] == x);
            }
        }
        if !u.contains(b.last()) {
            assert(u.push(b.last()).take(a.len() as int) =~= u.take(a.len() as int));
        }
    } else {
        assert(a.take(a.len() as int) =~= a);
    }
}

fn list_contains(list: &Vec<String>, s: &Vec<char>) -> (r: bool)
    ensures
        r == string_views(list@).contains(s@),
{
    for i in 0..list.len()
        invariant
            forall|j: int| 0 <= j < i ==> list@[j]@ != s@,
    {
        let v = chars_of(list[i].as_str());
        if chars_eq(&v, s) {
            assert(string_views(list@)[i as int] == s@);
            return true;
        }
    }
    assert forall|j: int| 0 <= j < list.len() implies string_views(list@)[j] != s@ by {
        assert(string_views(list@)[j] == list@[j]@);
    }
    false
}

fn copy_strings(v: &Vec<String>) -> (r: Vec<String>)
    ensures
        string_views(r@) == string_views(v@),
{
    let mut r: Vec<String> = Vec::new();
    for i in 0..v.len()
        invariant
            string_views(r@) =~= string_views(v@.take(i as int)),
    {
        r.push(v[i].clone());
        assert(string_views(v@.take(i + 1)) =~= string_views(v@.take(i as int)).push(v@[i as int]@));
    }
    assert(v@.take(v.len() as int) =~= v@);
    r
}

/// The list `a` followed by the items of `b` it does not hold yet.
pub fn union(a: &Vec<String>, b: &Vec<String>) -> (r: Vec<String>)
    ensures
        string_views(r@) == union_of(string_views(a@), string_views(b@)),
{
    let mut out = copy_strings(a);
    for i in 0..b.len()
        invariant
            string_views(out@) == union_of(string_views(a@), string_views(b@.take(i as int))),
    {
        let x = chars_of(b[i].as_str());
        assert(string_views(b@.take(i + 1)).drop_last() =~= string_views(b@.take(i as int)));
        assert(string_views(b@.take(i + 1)).last() == b@[i as int]@);
        if !list_contains(&out, &x) {
            let ghost before = out@;
            out.push(b[i].clone());
            assert(string_views(out@) =~= string_views(before).push(b@[i as int]@));
        }
    }
    assert(b@.take(b.len() as int) =~= b@);
    out
}

/// What `--save-prefs` stores: each list the command line gives is merged
/// into the preferences' list, a size or bind address given on the command
/// line replaces the stored one, and the browser setting follows
/// `--no-browser`.
pub fn prefs_to_save(prefs: &Prefs, cli: &Cli) -> (r: Prefs)
    ensures
        string_views(r.exclude_components@) == if cli.exclude_components.len() > 0 {
            union_of(string_views(prefs.exclude_components@), string_views(cli.exclude_components@))
        } else {
            string_views(prefs.exclude_components@)
        },
        string_views(r.exclude_dirs@) == if cli.exclude_dirs.len() > 0 {
            union_of(string_views(prefs.exclude_dirs@), string_views(cli.exclude_dirs@))
        } else {
            string_views(prefs.exclude_dirs@)
        },
        string_views(r.ignore_names@) == if cli.ignore_names.len() > 0 {
            union_of(string_views(prefs.ignore_names@), string_views(cli.ignore_names@))
        } else {
            string_views(prefs.ignore_names@)
        },
        string_views(r.ignore_exts@) == if cli.ignore_exts.len() > 0 {
            union_of(string_views(prefs.ignore_exts@), string_views(cli.ignore_exts@))
        } else {
            string_views(prefs.ignore_exts@)
        },
        string_views(r.include_patterns@) == if cli.include_patterns.len() > 0 {
            union_of(string_views(prefs.include_patterns@), string_views(cli.include_patterns@))
        } else {
            string_views(prefs.include_patterns@)
        },
        r.min_size == (if cli.min_size is Some { cli.min_size } else { prefs.min_size }),
        r.bind@ == (match cli.bind {
            Some(b) => b@,
            None => prefs.bind@,
        }),
        r.open_browser == !cli.no_browser,
{
    Prefs {
        exclude_components: if cli.exclude_components.len() > 0 {
            union(&prefs.exclude_components, &cli.exclude_components)
        } else {
            copy_strings(&prefs.exclude_components)
        },
        exclude_dirs: if cli.exclude_dirs.len() > 0 {
            union(&prefs.exclude_dirs, &cli.exclude_dirs)
        } else {
            copy_strings(&prefs.exclude_dirs)
        },
        min_size: if cli.min_size.is_some() {
            cli.min_size.clone()
        } else {
            prefs.min_size.clone()
        },
        ignore_names: if cli.ignore_names.len() > 0 {
            union(&prefs.ignore_names, &cli.ignore_names)
        } else {
            copy_strings(&prefs.ignore_names)
        },
        ignore_exts: if cli.ignore_exts.len() > 0 {
            union(&prefs.ignore_exts, &cli.ignore_exts)
        } else {
            copy_strings(&prefs.ignore_exts)
        },
        include_patterns: if cli.include_patterns.len() > 0 {
            union(&prefs.include_patterns, &cli.include_patterns)
        } else {
            copy_strings(&prefs.include_patterns)
        },
        bind: match &cli.bind {
            Some(b) => b.clone(),
            None => prefs.bind.clone(),
        },
        open_browser: !cli.no_browser,
    }
}


/// The size limit in force: the command line's if given, else the stored
/// one; a size that does not parse, or none at all, means no minimum.
pub open spec fn min_size_in_force(cli_min: Option<String>, prefs_min: Option<String>) -> u64 {
    let chosen = if cli_min is Some { cli_min } else { prefs_min };
    match chosen {
        Some(s) => match parse_bytes_spec(s@) {
            Some(n) => n,
            None => 0,
        },
        None => 0,
    }
}

/// The minimum file size for a run.
pub fn effective_min_size(cli_min: &Option<String>, prefs_min: &Option<String>) -> (r: u64)
    ensures
        r == min_size_in_force(*cli_min, *prefs_min),
{
    let chosen = if cli_min.is_some() { cli_min } else { prefs_min };
    match chosen {
        Some(s) => match parse_bytes(s.as_str()) {
            Some(n) => n,
            None => 0,
        },
        None => 0,
    }
}

/// Number of leading `.` of `s`.
pub open spec fn leading_dots(s: Seq<char>) -> nat
    decreases s.len(),
{
    if s.len() > 0 && s[0] == '.' {
        1 + leading_dots(s.drop_first())
    } else {
        0
    }
}

/// An extension as the filter compares it: without leading dots, ASCII
/// lower-cased.
pub open spec fn normal_ext(s: Seq<char>) -> Seq<char> {
    lowered(s.skip(leading_dots(s) as int))
}

/// A normalized extension is ASCII lower-case, has no leading dot, and
/// does not depend on how many dots were typed before it: without a
/// leading dot it is the extension lower-cased.
pub proof fn law_normal_ext_lower_case_without_dots(s: Seq<char>)
    ensures
        lowered(normal_ext(s)) == normal_ext(s),
        normal_ext(seq!['.'] + s) == normal_ext(s),
        normal_ext(s).len() > 0 ==> normal_ext(s)[0] != '.',
        (s.len() == 0 || s[0] != '.') ==> normal_ext(s) == lowered(s),
{
    let t = s.skip(leading_dots(s) as int);
    lemma_leading_dots_bound(s);
    crate::text::lemma_lowered_idempotent(t);
    let d = seq!['.'] + s;
    assert(d.drop_first() =~= s);
    assert(leading_dots(d) == 1 + leading_dots(s));
    assert(d.skip(leading_dots(d) as int) =~= t);
    if leading_dots(s) == 0 {
        assert(t =~= s);
    }
    if t.len() > 0 {
        assert(t[0] != '.');
        if 'A' <= t[0] && t[0] <= 'Z' {
            assert('a' <= crate::text::lower_char(t[0]) && crate::text::lower_char(t[0]) <= 'z');
        }
    }
}

proof fn lemma_leading_dots_bound(s: Seq<char>)
    ensures
        leading_dots(s) <= s.len(),
        leading_dots(s) < s.len() ==> s[leading_dots(s) as int] != '.',
    decreases s.len(),
{
    if s.len() > 0 && s[0] == '.' {
        lemma_leading_dots_bound(s.drop_first());
        if leading_dots(s) < s.len() {
            assert(s[leading_dots(s) as int] == s.drop_first()[leading_dots(s.drop_first()) as int]);
        }
    }
}

/// `s.trim_start_matches('.').to_ascii_lowercase()`.
pub fn normalize_ext(s: &str) -> (r: String)
    ensures
        r@ == normal_ext(s@),
{
    let v = chars_of(s);
    let mut i: usize = 0;
    assert(v@.skip(0) =~= v@);
    while i < v.len() && v[i] == '.'
        invariant
            i <= v.len(),
            leading_dots(v@) == i + leading_dots(v@.skip(i as int)),
        decreases v.len() - i,
    {
        assert(v@.skip(i as int).drop_first() =~= v@.skip(i + 1));
        i = i + 1;
    }
    assert(i < v.len() ==> v@.skip(i as int)[0] == v@[i as int]);
    let rest = slice_chars(&v, i, v.len());
    assert(rest@ =~= v@.skip(i as int));
    let low = lower_chars(&rest);
    string_of(&low)
}

/// The sources of `srcs` that are valid globs, in order.
pub open spec fn valid_globs(srcs: Seq<Seq<char>>) -> Seq<Seq<char>> {
    picked(srcs, |i: int| glob_valid(srcs[i]))
}

/// The sources of `srcs` that are not valid globs, in order.
pub open spec fn invalid_globs(srcs: Seq<Seq<char>>) -> Seq<Seq<char>> {
    picked(srcs, |i: int| !glob_valid(srcs[i]))
}

pub open spec fn glob_views(gs: Seq<Glob>) -> Seq<Seq<char>> {
    Seq::new(gs.len(), |i: int| gs[i]@)
}

/// The warning for the invalid glob `p` given with `--<option>`.
pub open spec fn glob_warning(option: Seq<char>, p: Seq<char>) -> Seq<char> {
    "invalid --"@ + option + " glob '"@ + p + "': "@ + glob_error_text(p)
}

/// The warnings for the invalid globs of `srcs`, in order.
pub open spec fn glob_warnings(option: Seq<char>, srcs: Seq<Seq<char>>) -> Seq<Seq<char>> {
    invalid_globs(srcs).map_values(|p: Seq<char>| glob_warning(option, p))
}

/// Compiles each pattern; an invalid one is left out and reported as
/// "invalid --<option> glob '<pattern>': <reason>".
pub fn compile_globs(srcs: &Vec<String>, option: &str) -> (r: (Vec<Glob>, Vec<String>))
    ensures
        glob_views(r.0@) == valid_globs(string_views(srcs@)),
        string_views(r.1@) == glob_warnings(option@, string_views(srcs@)),
{
    let ghost views = string_views(srcs@);
    let mut globs: Vec<Glob> = Vec::new();
    let mut warnings: Vec<String> = Vec::new();
    for i in 0..srcs.len()
        invariant
            views == string_views(srcs@),
            glob_views(globs@) == valid_globs(views.take(i as int)),
            string_views(warnings@) == glob_warnings(option@, views.take(i as int)),
    {
        let ghost prev = views.take(i as int);
        proof {
            assert(views.take(i + 1) =~= prev.push(views[i as int]));
            crate::model::lemma_picked_push(prev, views[i as int], |j: int| glob_valid(views[j]));
            crate::model::lemma_picked_push(prev, views[i as int], |j: int| !glob_valid(views[j]));
            crate::model::lemma_picked_agree(views.take(i + 1), |j: int| glob_valid(views.take(i + 1)[j]), |j: int| glob_valid(views[j]));
            crate::model::lemma_picked_agree(views.take(i + 1), |j: int| !glob_valid(views.take(i + 1)[j]), |j: int| !glob_valid(views[j]));
            crate::model::lemma_picked_agree(prev, |j: int| glob_valid(prev[j]), |j: int| glob_valid(views[j]));
            crate::model::lemma_picked_agree(prev, |j: int| !glob_valid(prev[j]), |j: int| !glob_valid(views[j]));
        }
        match Glob::new(srcs[i].as_str()) {
            Ok(g) => {
                let ghost before = globs@;
                globs.push(g);
                assert(glob_views(globs@) =~= glob_views(before).push(views[i as int]));
                assert(glob_warnings(option@, views.take(i + 1)) =~= glob_warnings(option@, prev));
            },
            Err(e) => {
                let a = concat_str("invalid --", option);
                let b = concat_str(a.as_str(), " glob '");
                let c = concat_str(b.as_str(), srcs[i].as_str());
                let d = concat_str(c.as_str(), "': ");
                let m = e.message();
                let w = concat_str(d.as_str(), m.as_str());
                assert(m@ == glob_error_text(views[i as int]));
                assert(w@ == glob_warning(option@, views[i as int]));
                let ghost before = warnings@;
                warnings.push(w);
                assert(string_views(warnings@) =~= string_views(before).push(w@));
                assert(glob_warnings(option@, views.take(i + 1)) =~= glob_warnings(option@, prev).push(glob_warning(option@, views[i as int])));
            },
        }
    }
    assert(views.take(srcs.len() as int) =~= views);
    (globs, warnings)
}

/// The strings of `a` followed by those of `b`.
pub fn chain_strings(a: &Vec<String>, b: &Vec<String>) -> (r: Vec<String>)
    ensures
        string_views(r@) == string_views(a@) + string_views(b@),
{
    let mut r = copy_strings(a);
    for i in 0..b.len()
        invariant
            string_views(r@) =~= string_views(a@) + string_views(b@.take(i as int)),
    {
        let ghost before = r@;
        r.push(b[i].clone());
        assert(string_views(r@) =~= string_views(before).push(b@[i as int]@));
        assert(string_views(b@.take(i + 1)) =~= string_views(b@.take(i as int)).push(b@[i as int]@));
    }
    assert(b@.take(b.len() as int) =~= b@);
    r
}

/// The filter of a run: lists from the command line followed by those of
/// the preferences, extensions normalized, invalid globs left out (and
/// reported in the returned warnings), the size limit in force, and the
/// excluded directories as the caller resolved them.
pub fn build_filter(cli: &Cli, prefs: &Prefs, exclude_dirs: Vec<String>, hash_algo: HashAlgo) -> (r: (ScanFilter, Vec<String>))
    ensures
        r.0.min_size == min_size_in_force(cli.min_size, prefs.min_size),
        glob_views(r.0.include_globs@) == valid_globs(string_views(cli.include_patterns@) + string_views(prefs.include_patterns@)),
        glob_views(r.0.ignore_name_globs@) == valid_globs(string_views(cli.ignore_names@) + string_views(prefs.ignore_names@)),
        string_views(r.0.ignore_exts@) == Seq::new((cli.ignore_exts.len() + prefs.ignore_exts.len()) as nat, |i: int|
            normal_ext((string_views(cli.ignore_exts@) + string_views(prefs.ignore_exts@))[i])),
        r.0.exclude_dirs == exclude_dirs,
        string_views(r.0.exclude_components@) == string_views(cli.exclude_components@) + string_views(prefs.exclude_components@),
        r.0.hash_algo == hash_algo,
        string_views(r.1@) == glob_warnings("include"@, string_views(cli.include_patterns@) + string_views(prefs.include_patterns@))
            + glob_warnings("ignore-name"@, string_views(cli.ignore_names@) + string_views(prefs.ignore_names@)),
{
    let inc_src = chain_strings(&cli.include_patterns, &prefs.include_patterns);
    let (include_globs, mut warnings) = compile_globs(&inc_src, "include");
    let ign_src = chain_strings(&cli.ignore_names, &prefs.ignore_names);
    let (ignore_name_globs, mut w2) = compile_globs(&ign_src, "ignore-name");
    let ghost w1_views = string_views(warnings@);
    let ghost w2_views = string_views(w2@);
    warnings.append(&mut w2);
    assert(string_views(warnings@) =~= w1_views + w2_views);
    let ext_src = chain_strings(&cli.ignore_exts, &prefs.ignore_exts);
    let mut ignore_exts: Vec<String> = Vec::new();
    for i in 0..ext_src.len()
        invariant
            string_views(ext_src@) == string_views(cli.ignore_exts@) + string_views(prefs.ignore_exts@),
            string_views(ignore_exts@) =~= Seq::new(i as nat, |k: int| normal_ext(string_views(ext_src@)[k])),
    {
        let ghost before = ignore_exts@;
        ignore_exts.push(normalize_ext(ext_src[i].as_str()));
        assert(string_views(ignore_exts@) =~= string_views(before).push(normal_ext(string_views(ext_src@)[i as int])));
    }
    assert(ext_src.len() == cli.ignore_exts.len() + prefs.ignore_exts.len()) by {
        assert(string_views(ext_src@).len() == ext_src.len());
    }
    assert(string_views(ignore_exts@).len() == ext_src.len());
    assert(string_views(ignore_exts@) =~= Seq::new((cli.ignore_exts.len() + prefs.ignore_exts.len()) as nat, |i: int|
            normal_ext((string_views(cli.ignore_exts@) + string_views(prefs.ignore_exts@))[i])));
    let exclude_components = chain_strings(&cli.exclude_components, &prefs.exclude_components);
    let filter = ScanFilter {
        min_size: effective_min_size(&cli.min_size, &prefs.min_size),
        include_globs,
        ignore_name_globs,
        ignore_exts,
        exclude_dirs,
        exclude_components,
        hash_algo,
    };
    (filter, warnings)
}

} // verus!
