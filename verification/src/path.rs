//! Unix path syntax on strings.
//!
//! A path is read the way `std::path::Path` reads it: it may start with the
//! root (`/`) or, for a relative path, with the current directory (`.` as
//! its first segment); the rest is split at `/`, empty segments and `.`
//! segments are dropped, and `..` stays as a parent-directory step. Paths
//! are compared by these components. Where this module builds a path from
//! components it writes them in normal form: one `/` between components and
//! no trailing `/`.
use vstd::prelude::*;
use crate::text::{chars_eq, chars_eq_str, chars_of, extend_chars, slice_chars, string_of};

verus! {

/// How a path begins: the root, the current directory (`.`), or neither.
#[derive(PartialEq, Eq, Structural, Clone, Copy, Debug)]
pub enum PathStart {
    Relative,
    Root,
    Current,
}

// ---------------------------------------------------------------------------
// Specification
// ---------------------------------------------------------------------------

/// `s` split at every `/` (always at least one, possibly empty, segment).
pub open spec fn split_segs(s: Seq<char>) -> Seq<Seq<char>>
    decreases s.len(),
{
    if s.len() == 0 {
        seq![Seq::empty()]
    } else {
        let p = split_segs(s.drop_last());
        if s.last() == '/' {
            p.push(Seq::empty())
        } else {
            p.update(p.len() - 1, p.last().push(s.last()))
        }
    }
}

/// The character sequences held by a vector of character vectors.
pub open spec fn texts(v: Seq<Vec<char>>) -> Seq<Seq<char>> {
    Seq::new(v.len(), |i: int| v[i]@)
}

/// A segment that is a component of its own: neither empty nor `.`.
pub open spec fn is_step(seg: Seq<char>) -> bool {
    seg.len() > 0 && seg != seq!['.']
}

/// The segments that are components, in order.
pub open spec fn steps_of(segs: Seq<Seq<char>>) -> Seq<Seq<char>>
    decreases segs.len(),
{
    if segs.len() == 0 {
        seq![]
    } else if is_step(segs.last()) {
        steps_of(segs.drop_last()).push(segs.last())
    } else {
        steps_of(segs.drop_last())
    }
}

/// The components of `s` after its start: names, with `..` for a step up.
pub open spec fn path_steps(s: Seq<char>) -> Seq<Seq<char>> {
    steps_of(split_segs(s))
}

/// How `s` begins.
pub open spec fn path_start(s: Seq<char>) -> PathStart {
    if s.len() > 0 && s[0] == '/' {
        PathStart::Root
    } else if s.len() > 0 && s[0] == '.' && (s.len() == 1 || s[1] == '/') {
        PathStart::Current
    } else {
        PathStart::Relative
    }
}

/// `Path::starts_with`: the components of `base` are the first components of `p`.
pub open spec fn starts_with(p: Seq<char>, base: Seq<char>) -> bool {
    ||| (path_start(base) == PathStart::Relative && path_steps(base).len() == 0)
    ||| (path_start(p) == path_start(base) && path_steps(base).len() <= path_steps(p).len()
        && path_steps(p).take(path_steps(base).len() as int) == path_steps(base))
}

/// The names joined with single `/`.
pub open spec fn joined(names: Seq<Seq<char>>) -> Seq<char>
    decreases names.len(),
{
    if names.len() == 0 {
        seq![]
    } else if names.len() == 1 {
        names[0]
    } else {
        joined(names.drop_last()).push('/') + names.last()
    }
}

/// The path with the given start and components, in normal form.
pub open spec fn render(start: PathStart, names: Seq<Seq<char>>) -> Seq<char> {
    match start {
        PathStart::Relative => joined(names),
        PathStart::Root => seq!['/'] + joined(names),
        PathStart::Current => if names.len() == 0 {
            seq!['.']
        } else {
            seq!['.', '/'] + joined(names)
        },
    }
}

/// `Path::file_name`: the last component when it is a name.
pub open spec fn file_name_of(p: Seq<char>) -> Option<Seq<char>> {
    let st = path_steps(p);
    if st.len() > 0 && st.last() != seq!['.', '.'] {
        Some(st.last())
    } else {
        None
    }
}

/// `Path::extension` of a file name: what follows its last `.`, unless that
/// dot is the first character.
pub open spec fn extension_of_name(name: Seq<char>) -> Option<Seq<char>> {
    if exists|i: int| 0 < i < name.len() && name[i] == '.' {
        let i = last_dot(name);
        Some(name.skip(i + 1))
    } else {
        None
    }
}

/// Index of the last `.` in `name` (or -1).
pub open spec fn last_dot(name: Seq<char>) -> int
    decreases name.len(),
{
    if name.len() == 0 {
        -1
    } else if name.last() == '.' {
        name.len() - 1
    } else {
        last_dot(name.drop_last())
    }
}

/// `Path::extension`.
pub open spec fn extension_of(p: Seq<char>) -> Option<Seq<char>> {
    match file_name_of(p) {
        Some(n) => extension_of_name(n),
        None => None,
    }
}

/// `Path::parent`, written in normal form.
pub open spec fn parent_of(p: Seq<char>) -> Option<Seq<char>> {
    let st = path_steps(p);
    if st.len() > 0 {
        Some(render(path_start(p), st.drop_last()))
    } else if path_start(p) == PathStart::Current {
        Some(seq![])
    } else {
        None
    }
}

/// `Path::strip_prefix`: what remains of `p` after the components of `base`,
/// written in normal form.
pub open spec fn strip_prefix_of(p: Seq<char>, base: Seq<char>) -> Option<Seq<char>> {
    if !starts_with(p, base) {
        None
    } else if path_start(base) == PathStart::Relative && path_steps(base).len() == 0 {
        Some(render(path_start(p), path_steps(p)))
    } else {
        Some(joined(path_steps(p).skip(path_steps(base).len() as int)))
    }
}

/// `Path::join`: an absolute `rel` replaces `base`; otherwise `rel` is added
/// after a `/`, unless `base` is empty or already ends with one.
pub open spec fn join_of(base: Seq<char>, rel: Seq<char>) -> Seq<char> {
    if rel.len() > 0 && rel[0] == '/' {
        rel
    } else if base.len() > 0 && base.last() != '/' {
        base.push('/') + rel
    } else {
        base + rel
    }
}

// ---------------------------------------------------------------------------
// Lemmas
// ---------------------------------------------------------------------------

proof fn lemma_split_nonempty(s: Seq<char>)
    ensures
        split_segs(s).len() >= 1,
    decreases s.len(),
{
    if s.len() > 0 {
        lemma_split_nonempty(s.drop_last());
    }
}

proof fn lemma_split_step(s: Seq<char>, i: int)
    requires
        0 <= i < s.len(),
    ensures
        split_segs(s.take(i + 1)) == (if s[i] == '/' {
            split_segs(s.take(i)).push(Seq::empty())
        } else {
            let p = split_segs(s.take(i));
            p.update(p.len() - 1, p.last().push(s[i]))
        }),
{
    assert(s.take(i + 1).drop_last() =~= s.take(i));
}

proof fn lemma_steps_push(segs: Seq<Seq<char>>, seg: Seq<char>)
    ensures
        steps_of(segs.push(seg)) == (if is_step(seg) {
            steps_of(segs).push(seg)
        } else {
            steps_of(segs)
        }),
{
    assert(segs.push(seg).drop_last() =~= segs);
}

/// Splitting at a `/` between two texts splits each of them.
proof fn lemma_split_concat(a: Seq<char>, c: Seq<char>)
    ensures
        split_segs(a.push('/') + c) == split_segs(a) + split_segs(c),
    decreases c.len(),
{
    let x = a.push('/') + c;
    if c.len() == 0 {
        assert(x =~= a.push('/'));
        assert(a.push('/').drop_last() =~= a);
        assert(split_segs(a) + split_segs(c) =~= split_segs(a).push(Seq::empty()));
    } else {
        assert(x.drop_last() =~= a.push('/') + c.drop_last());
        assert(x.last() == c.last());
        lemma_split_concat(a, c.drop_last());
        lemma_split_nonempty(c.drop_last());
        lemma_split_nonempty(a);
        let pa = split_segs(a);
        let pb = split_segs(c.drop_last());
        if c.last() == '/' {
            assert((pa + pb).push(Seq::empty()) =~= pa + pb.push(Seq::empty()));
        } else {
            let p = pa + pb;
            assert(p.last() == pb.last());
            assert(p.update(p.len() - 1, p.last().push(c.last())) =~= pa + pb.update(pb.len() - 1, pb.last().push(c.last())));
        }
    }
}

/// The components of segments one after the other.
proof fn lemma_steps_concat(a: Seq<Seq<char>>, b: Seq<Seq<char>>)
    ensures
        steps_of(a + b) == steps_of(a) + steps_of(b),
    decreases b.len(),
{
    if b.len() == 0 {
        assert(a + b =~= a);
        assert(steps_of(a) + steps_of(b) =~= steps_of(a));
    } else {
        assert((a + b).drop_last() =~= a + b.drop_last());
        assert((a + b).last() == b.last());
        lemma_steps_concat(a, b.drop_last());
        if is_step(b.last()) {
            assert((steps_of(a) + steps_of(b.drop_last())).push(b.last()) =~= steps_of(a) + steps_of(b.drop_last()).push(b.last()));
        }
    }
}

proof fn lemma_steps_of_one_empty()
    ensures
        steps_of(seq![Seq::<char>::empty()]) == Seq::<Seq<char>>::empty(),
{
    let segs = seq![Seq::<char>::empty()];
    assert(segs.drop_last() =~= Seq::<Seq<char>>::empty());
    assert(!is_step(segs.last()));
    assert(steps_of(segs) == steps_of(segs.drop_last()));
}

/// Joining a relative path onto a base keeps the base whole, as the first
/// characters of the result, and gives the components of the base followed
/// by those of the relative path: nothing is merged into the base's last
/// component, whether or not the base ends with `/`.
pub proof fn law_join_appends_components(base: Seq<char>, rel: Seq<char>)
    requires
        rel.len() == 0 || rel[0] != '/',
    ensures
        join_of(base, rel).take(base.len() as int) == base,
        path_steps(join_of(base, rel)) == path_steps(base) + path_steps(rel),
{
    let j = join_of(base, rel);
    if base.len() == 0 {
        assert(j =~= rel);
        assert(split_segs(base) == seq![Seq::<char>::empty()]);
        lemma_steps_of_one_empty();
        assert(path_steps(base) + path_steps(rel) =~= path_steps(rel));
        assert(j.take(0) =~= base);
    } else if base.last() != '/' {
        assert(j.take(base.len() as int) =~= base);
        lemma_split_concat(base, rel);
        lemma_steps_concat(split_segs(base), split_segs(rel));
    } else {
        let b0 = base.drop_last();
        assert(base =~= b0.push('/'));
        assert(j =~= b0.push('/') + rel);
        assert(j.take(base.len() as int) =~= base);
        lemma_split_concat(b0, rel);
        lemma_steps_concat(split_segs(b0), split_segs(rel));
        lemma_split_concat(b0, Seq::<char>::empty());
        assert(b0.push('/') + Seq::<char>::empty() =~= base);
        lemma_steps_concat(split_segs(b0), split_segs(Seq::<char>::empty()));
        assert(split_segs(Seq::<char>::empty()) == seq![Seq::<char>::empty()]);
        lemma_steps_of_one_empty();
        assert(steps_of(split_segs(b0)) + Seq::<Seq<char>>::empty() =~= steps_of(split_segs(b0)));
    }
}

// ---------------------------------------------------------------------------
// Executable operations
// ---------------------------------------------------------------------------

/// Whether the segment is a component (neither empty nor `.`).
fn seg_is_step(seg: &Vec<char>) -> (r: bool)
    ensures
        r == is_step(seg@),
{
    if seg.len() == 0 {
        return false;
    }
    if seg.len() == 1 && seg[0] == '.' {
        assert(seg@ =~= seq!['.']);
        return false;
    }
    assert(seg.len() == 1 ==> seg@ != seq!['.']) by {
        if seg.len() == 1 && seg@ == seq!['.'] {
            assert(seg@[0] == '.');
        }
    }
    true
}

/// How `p` begins.
pub fn start_of(p: &Vec<char>) -> (r: PathStart)
    ensures
        r == path_start(p@),
{
    if p.len() > 0 && p[0] == '/' {
        PathStart::Root
    } else if p.len() > 0 && p[0] == '.' && (p.len() == 1 || p[1] == '/') {
        PathStart::Current
    } else {
        PathStart::Relative
    }
}

/// The components of `p` after its start.
pub fn steps(p: &Vec<char>) -> (r: Vec<Vec<char>>)
    ensures
        texts(r@) == path_steps(p@),
{
    let mut names: Vec<Vec<char>> = Vec::new();
    let mut cur: Vec<char> = Vec::new();
    let ghost mut done: Seq<Seq<char>> = seq![];
    assert(p@.take(0) =~= Seq::<char>::empty());
    for i in 0..p.len()
        invariant
            split_segs(p@.take(i as int)) == done.push(cur@),
            texts(names@) == steps_of(done),
    {
        proof {
            lemma_split_step(p@, i as int);
        }
        if p[i] == '/' {
            proof {
                lemma_steps_push(done, cur@);
            }
            if seg_is_step(&cur) {
                names.push(cur);
                assert(texts(names@) =~= steps_of(done).push(cur@));
            }
            proof {
                done = done.push(cur@);
            }
            cur = Vec::new();
            assert(split_segs(p@.take(i + 1)) =~= done.push(cur@));
        } else {
            cur.push(p[i]);
            assert(split_segs(p@.take(i + 1)) =~= done.push(cur@));
        }
    }
    assert(p@.take(p.len() as int) =~= p@);
    proof {
        lemma_steps_push(done, cur@);
    }
    if seg_is_step(&cur) {
        names.push(cur);
        assert(texts(names@) =~= steps_of(done).push(cur@));
    }
    names
}

/// `names` joined with single `/`.
pub fn join_names(names: &Vec<Vec<char>>) -> (r: Vec<char>)
    ensures
        r@ == joined(texts(names@)),
{
    let mut r: Vec<char> = Vec::new();
    for i in 0..names.len()
        invariant
            r@ == joined(texts(names@).take(i as int)),
    {
        let ghost before = texts(names@).take(i as int);
        if i > 0 {
            r.push('/');
        }
        extend_chars(&mut r, &names[i]);
        proof {
            let after = texts(names@).take(i + 1);
            assert(after.drop_last() =~= before);
            if i == 0 {
                assert(r@ =~= after[0]);
            } else {
                assert(r@ =~= joined(after));
            }
        }
    }
    assert(texts(names@).take(names.len() as int) =~= texts(names@));
    r
}

/// The path with the given start and components, in normal form.
pub fn render_path(start: PathStart, names: &Vec<Vec<char>>) -> (r: Vec<char>)
    ensures
        r@ == render(start, texts(names@)),
{
    let body = join_names(names);
    match start {
        PathStart::Relative => body,
        PathStart::Root => {
            let mut r: Vec<char> = Vec::new();
            r.push('/');
            extend_chars(&mut r, &body);
            r
        },
        PathStart::Current => {
            let mut r: Vec<char> = Vec::new();
            r.push('.');
            if names.len() > 0 {
                r.push('/');
                extend_chars(&mut r, &body);
                assert(r@ =~= seq!['.', '/'] + body@);
            } else {
                assert(r@ =~= seq!['.']);
            }
            r
        },
    }
}

/// `Path::starts_with`.
pub fn path_starts_with(p: &str, base: &str) -> (r: bool)
    ensures
        r == starts_with(p@, base@),
{
    let pv = chars_of(p);
    let bv = chars_of(base);
    let ps = start_of(&pv);
    let bs = start_of(&bv);
    let pn = steps(&pv);
    let bn = steps(&bv);
    if bs == PathStart::Relative && bn.len() == 0 {
        return true;
    }
    if ps != bs || bn.len() > pn.len() {
        return false;
    }
    let mut i: usize = 0;
    while i < bn.len()
        invariant
            i <= bn.len() <= pn.len(),
            texts(bn@) == path_steps(base@),
            texts(pn@) == path_steps(p@),
            forall|j: int| 0 <= j < i ==> texts(pn@)[j] == texts(bn@)[j],
        decreases bn.len() - i,
    {
        if !chars_eq(&pn[i], &bn[i]) {
            assert(texts(pn@).take(bn.len() as int)[i as int] != texts(bn@)[i as int]);
            return false;
        }
        i = i + 1;
    }
    assert(texts(pn@).take(bn.len() as int) =~= texts(bn@));
    true
}

/// `Path::file_name`.
pub fn file_name(p: &str) -> (r: Option<String>)
    ensures
        r matches Some(n) ==> file_name_of(p@) == Some(n@),
        r is None ==> file_name_of(p@) is None,
{
    let pv = chars_of(p);
    let st = steps(&pv);
    if st.len() == 0 {
        return None;
    }
    let last = &st[st.len() - 1];
    proof {
        reveal_strlit("..");
        assert(".."@ =~= seq!['.', '.']);
    }
    if chars_eq_str(last, "..") {
        assert(texts(st@).last() == seq!['.', '.']);
        return None;
    }
    assert(texts(st@).last() == last@);
    Some(string_of(last))
}

/// Index of the last `.` of `name`, if any.
fn find_last_dot(name: &Vec<char>) -> (r: Option<usize>)
    ensures
        r matches Some(i) ==> i as int == last_dot(name@) && i < name.len() && name@[i as int] == '.',
        r is None ==> last_dot(name@) == -1,
        r is None ==> forall|j: int| 0 <= j < name.len() ==> name@[j] != '.',
{
    let mut i = name.len();
    assert(name@.take(name.len() as int) =~= name@);
    while i > 0
        invariant
            i <= name.len(),
            last_dot(name@) == last_dot(name@.take(i as int)),
            forall|j: int| i <= j < name.len() ==> name@[j] != '.',
        decreases i,
    {
        assert(name@.take(i as int).drop_last() =~= name@.take(i - 1));
        if name[i - 1] == '.' {
            return Some(i - 1);
        }
        i = i - 1;
    }
    assert(name@.take(0) =~= Seq::<char>::empty());
    None
}

proof fn lemma_last_dot_is_last(name: Seq<char>)
    ensures
        last_dot(name) == -1 || (0 <= last_dot(name) < name.len() && name[last_dot(name)] == '.'),
        forall|j: int| last_dot(name) < j < name.len() ==> name[j] != '.',
    decreases name.len(),
{
    if name.len() > 0 && name.last() != '.' {
        lemma_last_dot_is_last(name.drop_last());
        assert forall|j: int| last_dot(name) < j < name.len() implies name[j] != '.' by {
            if j < name.len() - 1 {
                assert(name[j] == name.drop_last()[j]);
            }
        }
    }
}

/// `Path::extension` of a file name.
pub fn extension_of_file_name(name: &Vec<char>) -> (r: Option<Vec<char>>)
    ensures
        r matches Some(e) ==> extension_of_name(name@) == Some(e@),
        r is None ==> extension_of_name(name@) is None,
{
    proof {
        lemma_last_dot_is_last(name@);
    }
    match find_last_dot(name) {
        Some(i) => {
            if i == 0 {
                assert(!exists|k: int| 0 < k < name.len() && name@[k] == '.');
                None
            } else {
                Some(slice_chars(name, i + 1, name.len()))
            }
        },
        None => None,
    }
}

/// `Path::parent`, in normal form.
pub fn parent(p: &str) -> (r: Option<String>)
    ensures
        r matches Some(q) ==> parent_of(p@) == Some(q@),
        r is None ==> parent_of(p@) is None,
{
    let pv = chars_of(p);
    let start = start_of(&pv);
    let mut st = steps(&pv);
    if st.len() > 0 {
        let ghost full = texts(st@);
        st.pop();
        assert(texts(st@) =~= full.drop_last());
        let v = render_path(start, &st);
        Some(string_of(&v))
    } else if start == PathStart::Current {
        Some(String::new())
    } else {
        None
    }
}

/// `Path::strip_prefix`, in normal form.
pub fn strip_prefix(p: &str, base: &str) -> (r: Option<String>)
    ensures
        r matches Some(q) ==> strip_prefix_of(p@, base@) == Some(q@),
        r is None ==> strip_prefix_of(p@, base@) is None,
{
    if !path_starts_with(p, base) {
        return None;
    }
    let pv = chars_of(p);
    let bv = chars_of(base);
    let pn = steps(&pv);
    let bn = steps(&bv);
    if start_of(&bv) == PathStart::Relative && bn.len() == 0 {
        let v = render_path(start_of(&pv), &pn);
        return Some(string_of(&v));
    }
    let mut rest: Vec<Vec<char>> = Vec::new();
    let mut i = bn.len();
    while i < pn.len()
        invariant
            bn.len() <= i <= pn.len(),
            texts(rest@) =~= texts(pn@).subrange(bn.len() as int, i as int),
        decreases pn.len() - i,
    {
        let c = slice_chars(&pn[i], 0, pn[i].len());
        assert(c@ =~= pn@[i as int]@);
        let ghost before = rest@;
        rest.push(c);
        assert(texts(rest@) =~= texts(before).push(c@));
        i = i + 1;
    }
    let v = join_names(&rest);
    Some(string_of(&v))
}

/// `Path::join`.
pub fn join(base: &str, rel: &str) -> (r: String)
    ensures
        r@ == join_of(base@, rel@),
{
    let bv = chars_of(base);
    let rv = chars_of(rel);
    if rv.len() > 0 && rv[0] == '/' {
        return string_of(&rv);
    }
    let mut out = bv;
    if out.len() > 0 && out[out.len() - 1] != '/' {
        out.push('/');
    }
    extend_chars(&mut out, &rv);
    string_of(&out)
}

} // verus!
