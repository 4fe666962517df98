//! Moving the files of the folders the user did not keep.
//!
//! Every file of a non-kept folder moves to the target folder under the
//! same path relative to the root. An existing file is never overwritten:
//! the destination gets `.1`, `.2`, ... appended to its full file name until
//! it names nothing that exists.
//!
//! The file system is reached only through the operations the caller hands
//! in (does a path exist, create a directory and its parents, rename, copy
//! then delete); every contract here holds whatever those operations answer.
use vstd::prelude::*;
use crate::model::{Folder, FileView, file_views, picked};
use crate::path::{file_name, file_name_of, join, join_of, parent, parent_of, strip_prefix, strip_prefix_of};
use crate::text::{concat_str, decimal, decimal_chars, string_of, chars_of, extend_chars};

verus! {

/// One planned move: source file to destination under the target,
/// preserving the full relative path from the root.
#[derive(Debug, Clone)]
pub struct MovePlanItem {
    pub src: String,
    pub dest: String,
    pub size: u64,
}

/// What a plan item says.
pub struct PlanView {
    pub src: Seq<char>,
    pub dest: Seq<char>,
    pub size: u64,
}

impl View for MovePlanItem {
    type V = PlanView;

    open spec fn view(&self) -> PlanView {
        PlanView { src: self.src@, dest: self.dest@, size: self.size }
    }
}

/// Why a rename failed: whether the two paths are on different devices
/// (so that a copy is needed), and the error's text.
#[derive(Debug, Clone)]
pub struct RenameFailure {
    pub cross_device: bool,
    pub message: String,
}

// ---------------------------------------------------------------------------
// What the file-system operations answered
// ---------------------------------------------------------------------------

/// `occupied` answered `v` for the path `p`.
pub open spec fn answered<F: Fn(&str) -> bool>(f: &F, p: Seq<char>, v: bool) -> bool {
    exists|x: &str| x@ == p && #[trigger] f.ensures((x,), v)
}

/// Creating the directory `p` (and its parents) gave `v`.
pub open spec fn made_dirs<M: Fn(&str) -> Result<(), String>>(f: &M, p: Seq<char>, v: Result<(), Seq<char>>) -> bool {
    exists|x: &str, r: Result<(), String>| x@ == p && #[trigger] f.ensures((x,), r) && match (r, v) {
        (Ok(_), Ok(_)) => true,
        (Err(e), Err(m)) => e@ == m,
        _ => false,
    }
}

/// Renaming `a` to `b` gave `v` (an error says whether the devices differ).
pub open spec fn renamed<R: Fn(&str, &str) -> Result<(), RenameFailure>>(f: &R, a: Seq<char>, b: Seq<char>, v: Result<(), (bool, Seq<char>)>) -> bool {
    exists|x: &str, y: &str, r: Result<(), RenameFailure>| x@ == a && y@ == b && #[trigger] f.ensures((x, y), r) && match (r, v) {
        (Ok(_), Ok(_)) => true,
        (Err(e), Err(m)) => e.cross_device == m.0 && e.message@ == m.1,
        _ => false,
    }
}

/// Copying `a` to `b` and then deleting `a` gave `v`.
pub open spec fn copied<C: Fn(&str, &str) -> Result<(), String>>(f: &C, a: Seq<char>, b: Seq<char>, v: Result<(), Seq<char>>) -> bool {
    exists|x: &str, y: &str, r: Result<(), String>| x@ == a && y@ == b && #[trigger] f.ensures((x, y), r) && match (r, v) {
        (Ok(_), Ok(_)) => true,
        (Err(e), Err(m)) => e@ == m,
        _ => false,
    }
}

// ---------------------------------------------------------------------------
// Destinations that never overwrite
// ---------------------------------------------------------------------------

/// The `n`-th name tried for `dest`: `dest` itself for 0, otherwise its
/// file name with `.n` appended, in the same parent directory.
pub open spec fn candidate(dest: Seq<char>, n: nat) -> Seq<char> {
    if n == 0 {
        dest
    } else {
        let name = match file_name_of(dest) {
            Some(x) => x,
            None => seq![],
        };
        let cname = name.push('.') + decimal(n);
        match parent_of(dest) {
            Some(p) => join_of(p, cname),
            None => cname,
        }
    }
}

/// `d` is the first candidate for `dest` that `occupied` reported free.
pub open spec fn first_free<F: Fn(&str) -> bool>(occupied: &F, dest: Seq<char>, d: Seq<char>) -> bool {
    exists|n: nat| #![trigger candidate(dest, n)]
        n <= u32::MAX && d == candidate(dest, n) && answered(occupied, d, false)
        && forall|k: nat| k < n ==> answered(occupied, #[trigger] candidate(dest, k), true)
}

/// Every candidate for `dest` up to `.4294967295` was reported taken.
pub open spec fn all_taken<F: Fn(&str) -> bool>(occupied: &F, dest: Seq<char>) -> bool {
    forall|k: nat| k <= u32::MAX ==> answered(occupied, #[trigger] candidate(dest, k), true)
}

/// The candidate name with suffix `n`.
fn candidate_name(parent_dir: &Option<String>, name: &Vec<char>, n: u32) -> (r: String)
    ensures
        r@ == (match parent_dir {
            Some(p) => join_of(p@, name@.push('.') + decimal(n as nat)),
            None => name@.push('.') + decimal(n as nat),
        }),
{
    let mut cname: Vec<char> = Vec::new();
    extend_chars(&mut cname, name);
    cname.push('.');
    let digits = decimal_chars(n as u64);
    extend_chars(&mut cname, &digits);
    assert(cname@ =~= name@.push('.') + decimal(n as nat));
    let cs = string_of(&cname);
    match parent_dir {
        Some(p) => join(p.as_str(), cs.as_str()),
        None => cs,
    }
}

/// Resolve a destination that never overwrites an existing file: `dest`
/// if it does not exist, otherwise the first of `dest.1`, `dest.2`, ...
/// (suffix on the full file name, e.g. `a.txt` -> `a.txt.1`) that does not.
/// `None` if all suffixes up to `u32::MAX` are taken.
pub fn unique_dest<F: Fn(&str) -> bool>(dest: &str, occupied: &F) -> (r: Option<String>)
    requires
        forall|p: &str| occupied.requires((p,)),
    ensures
        r matches Some(d) ==> first_free(occupied, dest@, d@),
        r is None ==> all_taken(occupied, dest@),
{
    if !occupied(dest) {
        proof {
            assert(answered(occupied, dest@, false));
            assert(dest@ == candidate(dest@, 0));
        }
        return Some(String::from_str(dest));
    }
    proof {
        assert(answered(occupied, candidate(dest@, 0), true));
    }
    let parent_dir = parent(dest);
    let name = match file_name(dest) {
        Some(x) => chars_of(x.as_str()),
        None => Vec::new(),
    };
    assert(name@ == (match file_name_of(dest@) { Some(x) => x, None => seq![] }));
    let mut n: u32 = 1;
    loop
        invariant
            1 <= n,
            forall|p: &str| occupied.requires((p,)),
            name@ == (match file_name_of(dest@) { Some(x) => x, None => seq![] }),
            parent_dir matches Some(q) ==> parent_of(dest@) == Some(q@),
            parent_dir is None ==> parent_of(dest@) is None,
            forall|k: nat| k < n ==> answered(occupied, #[trigger] candidate(dest@, k), true),
        decreases u32::MAX - n,
    {
        let c = candidate_name(&parent_dir, &name, n);
        assert(c@ == candidate(dest@, n as nat));
        if !occupied(c.as_str()) {
            proof {
                assert(answered(occupied, c@, false));
            }
            return Some(c);
        }
        proof {
            assert(answered(occupied, candidate(dest@, n as nat), true));
        }
        if n == u32::MAX {
            assert forall|k: nat| k <= u32::MAX implies answered(occupied, #[trigger] candidate(dest@, k), true) by {
                if k == n {
                }
            }
            return None;
        }
        n = n + 1;
    }
}


// ---------------------------------------------------------------------------
// Planning
// ---------------------------------------------------------------------------

/// The files of the folders not kept, folder by folder.
pub open spec fn move_sources(folders: Seq<Folder>) -> Seq<FileView>
    decreases folders.len(),
{
    if folders.len() == 0 {
        seq![]
    } else if folders.last().keep {
        move_sources(folders.drop_last())
    } else {
        move_sources(folders.drop_last()) + file_views(folders.last().files@)
    }
}

/// What planning one file gave: a move, or an error message.
pub enum PlanStep {
    Move(PlanView),
    Error(Seq<char>),
}

/// Planning file `f` may give `st`: outside the root it is the error
/// "not under root: <path>"; otherwise it moves to the first free name for
/// `target/<path relative to root>`, or, when every such name is taken,
/// gives the error "no free name for <destination>".
pub open spec fn plan_step_ok<F: Fn(&str) -> bool>(
    occupied: &F,
    root: Seq<char>,
    target: Seq<char>,
    f: FileView,
    st: PlanStep,
) -> bool {
    match strip_prefix_of(f.path, root) {
        None => st == PlanStep::Error("not under root: "@ + f.path),
        Some(rel) => {
            let base = join_of(target, rel);
            ||| (st matches PlanStep::Move(it) && it.src == f.path && it.size == f.size
                && first_free(occupied, base, it.dest))
            ||| (all_taken(occupied, base) && st == PlanStep::Error("no free name for "@ + base))
        },
    }
}

/// The moves among the steps, in order.
pub open spec fn step_moves(steps: Seq<PlanStep>) -> Seq<PlanView>
    decreases steps.len(),
{
    if steps.len() == 0 {
        seq![]
    } else {
        match steps.last() {
            PlanStep::Move(it) => step_moves(steps.drop_last()).push(it),
            PlanStep::Error(_) => step_moves(steps.drop_last()),
        }
    }
}

/// The errors among the steps, in order.
pub open spec fn step_errors(steps: Seq<PlanStep>) -> Seq<Seq<char>>
    decreases steps.len(),
{
    if steps.len() == 0 {
        seq![]
    } else {
        match steps.last() {
            PlanStep::Move(_) => step_errors(steps.drop_last()),
            PlanStep::Error(e) => step_errors(steps.drop_last()).push(e),
        }
    }
}

pub open spec fn plan_views(v: Seq<MovePlanItem>) -> Seq<PlanView> {
    Seq::new(v.len(), |i: int| v[i]@)
}

pub open spec fn string_views(v: Seq<String>) -> Seq<Seq<char>> {
    Seq::new(v.len(), |i: int| v[i]@)
}

/// `plan` and `errors` are what planning `sources` step by step gives.
pub open spec fn planned<F: Fn(&str) -> bool>(
    occupied: &F,
    root: Seq<char>,
    target: Seq<char>,
    sources: Seq<FileView>,
    plan: Seq<MovePlanItem>,
    errors: Seq<String>,
) -> bool {
    exists|steps: Seq<PlanStep>| {
        &&& steps.len() == sources.len()
        &&& forall|i: int| 0 <= i < steps.len() ==> plan_step_ok(occupied, root, target, sources[i], #[trigger] steps[i])
        &&& plan_views(plan) == step_moves(steps)
        &&& string_views(errors) == step_errors(steps)
    }
}

proof fn lemma_steps_push(steps: Seq<PlanStep>, st: PlanStep)
    ensures
        step_moves(steps.push(st)) == (match st {
            PlanStep::Move(it) => step_moves(steps).push(it),
            PlanStep::Error(_) => step_moves(steps),
        }),
        step_errors(steps.push(st)) == (match st {
            PlanStep::Move(_) => step_errors(steps),
            PlanStep::Error(e) => step_errors(steps).push(e),
        }),
{
    assert(steps.push(st).drop_last() =~= steps);
}

/// Plans the move of one file.
fn plan_one<F: Fn(&str) -> bool>(
    f: &crate::model::FileEntry,
    root: &str,
    target: &str,
    occupied: &F,
) -> (r: Result<MovePlanItem, String>)
    requires
        forall|p: &str| occupied.requires((p,)),
    ensures
        plan_step_ok(occupied, root@, target@, f@, match r {
            Ok(it) => PlanStep::Move(it@),
            Err(e) => PlanStep::Error(e@),
        }),
{
    match strip_prefix(f.path.as_str(), root) {
        None => Err(concat_str("not under root: ", f.path.as_str())),
        Some(rel) => {
            let base = join(target, rel.as_str());
            match unique_dest(base.as_str(), occupied) {
                Some(dest) => Ok(MovePlanItem { src: f.path.clone(), dest, size: f.size }),
                None => Err(concat_str("no free name for ", base.as_str())),
            }
        },
    }
}

/// Build the list of files that would be moved, without moving anything:
/// every file of every non-kept folder, with its destination under
/// `target`, plus one error per file that cannot be planned. The
/// kept-folder guard (at least one kept) is the caller's responsibility.
pub fn plan_move<F: Fn(&str) -> bool>(
    folders: &Vec<Folder>,
    root: &str,
    target: &str,
    occupied: &F,
) -> (r: (Vec<MovePlanItem>, Vec<String>))
    requires
        forall|p: &str| occupied.requires((p,)),
    ensures
        planned(occupied, root@, target@, move_sources(folders@), r.0@, r.1@),
{
    let mut plan: Vec<MovePlanItem> = Vec::new();
    let mut errors: Vec<String> = Vec::new();
    let ghost mut steps: Seq<PlanStep> = seq![];
    for fi in 0..folders.len()
        invariant
            forall|p: &str| occupied.requires((p,)),
            steps.len() == move_sources(folders@.take(fi as int)).len(),
            forall|i: int| 0 <= i < steps.len() ==> plan_step_ok(occupied, root@, target@, move_sources(folders@.take(fi as int))[i], #[trigger] steps[i]),
            plan_views(plan@) == step_moves(steps),
            string_views(errors@) == step_errors(steps),
    {
        let ghost done = move_sources(folders@.take(fi as int));
        proof {
            assert(folders@.take(fi + 1).drop_last() =~= folders@.take(fi as int));
        }
        if !folders[fi].keep {
            let files = &folders[fi].files;
            for j in 0..files.len()
                invariant
                    forall|p: &str| occupied.requires((p,)),
                    steps.len() == done.len() + j,
                    forall|i: int| 0 <= i < steps.len() ==> plan_step_ok(occupied, root@, target@, (done + file_views(files@))[i], #[trigger] steps[i]),
                    plan_views(plan@) == step_moves(steps),
                    string_views(errors@) == step_errors(steps),
            {
                let res = plan_one(&files[j], root, target, occupied);
                let ghost st = match &res {
                    Ok(it) => PlanStep::Move(it@),
                    Err(e) => PlanStep::Error(e@),
                };
                proof {
                    lemma_steps_push(steps, st);
                }
                let ghost old_plan = plan@;
                let ghost old_errors = errors@;
                match res {
                    Ok(it) => {
                        plan.push(it);
                        assert(plan_views(plan@) =~= plan_views(old_plan).push(plan@.last()@));
                    },
                    Err(e) => {
                        errors.push(e);
                        assert(string_views(errors@) =~= string_views(old_errors).push(errors@.last()@));
                    },
                }
                proof {
                    assert((done + file_views(files@))[done.len() + j] == files@[j as int]@);
                    steps = steps.push(st);
                }
            }
            assert(done + file_views(files@) =~= move_sources(folders@.take(fi + 1)));
        } else {
            assert(done =~= move_sources(folders@.take(fi + 1)));
        }
    }
    assert(folders@.take(folders.len() as int) =~= folders@);
    (plan, errors)
}


// ---------------------------------------------------------------------------
// Executing a plan
// ---------------------------------------------------------------------------

/// Moving `src` to `d` once `d`'s directory exists may end with `out`
/// (`None`: moved; `Some(m)`: the error `m`): a rename, or on a
/// cross-device error a copy followed by deleting the source.
pub open spec fn transferred<R: Fn(&str, &str) -> Result<(), RenameFailure>, C: Fn(&str, &str) -> Result<(), String>>(
    rename: &R,
    copy_remove: &C,
    src: Seq<char>,
    d: Seq<char>,
    out: Option<Seq<char>>,
) -> bool {
    ||| (renamed(rename, src, d, Ok(())) && out is None)
    ||| exists|e: Seq<char>| #[trigger] renamed(rename, src, d, Err((true, e))) && {
        ||| (copied(copy_remove, src, d, Ok(())) && out is None)
        ||| exists|e2: Seq<char>| #[trigger] copied(copy_remove, src, d, Err(e2)) && out == Some("copy "@ + src + " failed: "@ + e2)
    }
    ||| exists|e: Seq<char>| #[trigger] renamed(rename, src, d, Err((false, e))) && out == Some("rename "@ + src + " failed: "@ + e)
}

/// Moving `src` to `d` may end with `out`: `d`'s parent directory is
/// created first ("mkdir <dir> failed: <error>" when that fails).
pub open spec fn moved_to<M: Fn(&str) -> Result<(), String>, R: Fn(&str, &str) -> Result<(), RenameFailure>, C: Fn(&str, &str) -> Result<(), String>>(
    make_dirs: &M,
    rename: &R,
    copy_remove: &C,
    src: Seq<char>,
    d: Seq<char>,
    out: Option<Seq<char>>,
) -> bool {
    match parent_of(d) {
        Some(pd) => {
            ||| exists|e: Seq<char>| #[trigger] made_dirs(make_dirs, pd, Err(e)) && out == Some("mkdir "@ + pd + " failed: "@ + e)
            ||| (made_dirs(make_dirs, pd, Ok(())) && transferred(rename, copy_remove, src, d, out))
        },
        None => transferred(rename, copy_remove, src, d, out),
    }
}

/// Executing plan item `it` may end with `out`: the destination is
/// resolved again (an earlier move may have taken it), then the file moves.
pub open spec fn exec_step_ok<F: Fn(&str) -> bool, M: Fn(&str) -> Result<(), String>, R: Fn(&str, &str) -> Result<(), RenameFailure>, C: Fn(&str, &str) -> Result<(), String>>(
    occupied: &F,
    make_dirs: &M,
    rename: &R,
    copy_remove: &C,
    it: PlanView,
    out: Option<Seq<char>>,
) -> bool {
    ||| (all_taken(occupied, it.dest) && out == Some("no free name for "@ + it.dest))
    ||| exists|d: Seq<char>| #[trigger] first_free(occupied, it.dest, d) && moved_to(make_dirs, rename, copy_remove, it.src, d, out)
}

/// How many of the outcomes are successes.
pub open spec fn count_moved(outs: Seq<Option<Seq<char>>>) -> nat
    decreases outs.len(),
{
    if outs.len() == 0 {
        0
    } else {
        count_moved(outs.drop_last()) + if outs.last() is None { 1nat } else { 0nat }
    }
}

/// The error messages among the outcomes, in order.
pub open spec fn outcome_errors(outs: Seq<Option<Seq<char>>>) -> Seq<Seq<char>>
    decreases outs.len(),
{
    if outs.len() == 0 {
        seq![]
    } else {
        match outs.last() {
            Some(e) => outcome_errors(outs.drop_last()).push(e),
            None => outcome_errors(outs.drop_last()),
        }
    }
}

/// `moved` and `errors` are what executing `plan` item by item gives.
pub open spec fn executed<F: Fn(&str) -> bool, M: Fn(&str) -> Result<(), String>, R: Fn(&str, &str) -> Result<(), RenameFailure>, C: Fn(&str, &str) -> Result<(), String>>(
    occupied: &F,
    make_dirs: &M,
    rename: &R,
    copy_remove: &C,
    plan: Seq<PlanView>,
    moved: nat,
    errors: Seq<Seq<char>>,
) -> bool {
    exists|outs: Seq<Option<Seq<char>>>| {
        &&& outs.len() == plan.len()
        &&& forall|i: int| 0 <= i < outs.len() ==> exec_step_ok(occupied, make_dirs, rename, copy_remove, plan[i], #[trigger] outs[i])
        &&& moved == count_moved(outs)
        &&& errors == outcome_errors(outs)
    }
}

proof fn lemma_outs_push(outs: Seq<Option<Seq<char>>>, o: Option<Seq<char>>)
    ensures
        count_moved(outs.push(o)) == count_moved(outs) + if o is None { 1nat } else { 0nat },
        outcome_errors(outs.push(o)) == (match o {
            Some(e) => outcome_errors(outs).push(e),
            None => outcome_errors(outs),
        }),
{
    assert(outs.push(o).drop_last() =~= outs);
}

proof fn lemma_count_moved_bound(outs: Seq<Option<Seq<char>>>)
    ensures
        count_moved(outs) <= outs.len(),
    decreases outs.len(),
{
    if outs.len() > 0 {
        lemma_count_moved_bound(outs.drop_last());
    }
}

/// Renames `src` to `d`, falling back to copy-and-delete across devices.
fn transfer<R: Fn(&str, &str) -> Result<(), RenameFailure>, C: Fn(&str, &str) -> Result<(), String>>(
    rename: &R,
    copy_remove: &C,
    src: &str,
    d: &str,
) -> (r: Option<String>)
    requires
        forall|a: &str, b: &str| rename.requires((a, b)),
        forall|a: &str, b: &str| copy_remove.requires((a, b)),
    ensures
        transferred(rename, copy_remove, src@, d@, match r {
            Some(m) => Some(m@),
            None => None,
        }),
{
    match rename(src, d) {
        Ok(()) => {
            assert(renamed(rename, src@, d@, Ok(())));
            None
        },
        Err(e) => {
            if e.cross_device {
                assert(renamed(rename, src@, d@, Err((true, e.message@))));
                match copy_remove(src, d) {
                    Ok(()) => {
                        assert(copied(copy_remove, src@, d@, Ok(())));
                        None
                    },
                    Err(e2) => {
                        assert(copied(copy_remove, src@, d@, Err(e2@)));
                        let a = concat_str("copy ", src);
                        let b = concat_str(a.as_str(), " failed: ");
                        let m = concat_str(b.as_str(), e2.as_str());
                        Some(m)
                    },
                }
            } else {
                assert(renamed(rename, src@, d@, Err((false, e.message@))));
                let a = concat_str("rename ", src);
                let b = concat_str(a.as_str(), " failed: ");
                let m = concat_str(b.as_str(), e.message.as_str());
                Some(m)
            }
        },
    }
}

/// Executes one plan item.
fn execute_one<F: Fn(&str) -> bool, M: Fn(&str) -> Result<(), String>, R: Fn(&str, &str) -> Result<(), RenameFailure>, C: Fn(&str, &str) -> Result<(), String>>(
    item: &MovePlanItem,
    occupied: &F,
    make_dirs: &M,
    rename: &R,
    copy_remove: &C,
) -> (r: Option<String>)
    requires
        forall|p: &str| occupied.requires((p,)),
        forall|p: &str| make_dirs.requires((p,)),
        forall|a: &str, b: &str| rename.requires((a, b)),
        forall|a: &str, b: &str| copy_remove.requires((a, b)),
    ensures
        exec_step_ok(occupied, make_dirs, rename, copy_remove, item@, match r {
            Some(m) => Some(m@),
            None => None,
        }),
{
    let dest = match unique_dest(item.dest.as_str(), occupied) {
        Some(d) => d,
        None => {
            return Some(concat_str("no free name for ", item.dest.as_str()));
        },
    };
    let res = match parent(dest.as_str()) {
        Some(pd) => {
            match make_dirs(pd.as_str()) {
                Err(e) => {
                    assert(made_dirs(make_dirs, pd@, Err(e@)));
                    let a = concat_str("mkdir ", pd.as_str());
                    let b = concat_str(a.as_str(), " failed: ");
                    Some(concat_str(b.as_str(), e.as_str()))
                },
                Ok(()) => {
                    assert(made_dirs(make_dirs, pd@, Ok(())));
                    transfer(rename, copy_remove, item.src.as_str(), dest.as_str())
                },
            }
        },
        None => transfer(rename, copy_remove, item.src.as_str(), dest.as_str()),
    };
    assert(moved_to(make_dirs, rename, copy_remove, item.src@, dest@, match res {
        Some(m) => Some(m@),
        None => None,
    }));
    res
}

/// Execute a previously built plan: move each source to its destination,
/// creating parent directories as needed. Never overwrites: a destination
/// that exists by now is resolved again with `.1`, `.2`, ... Errors are
/// collected per file; the batch goes on. Returns (moved, errors).
pub fn execute_move<F: Fn(&str) -> bool, M: Fn(&str) -> Result<(), String>, R: Fn(&str, &str) -> Result<(), RenameFailure>, C: Fn(&str, &str) -> Result<(), String>>(
    plan: &Vec<MovePlanItem>,
    occupied: &F,
    make_dirs: &M,
    rename: &R,
    copy_remove: &C,
) -> (r: (usize, Vec<String>))
    requires
        forall|p: &str| occupied.requires((p,)),
        forall|p: &str| make_dirs.requires((p,)),
        forall|a: &str, b: &str| rename.requires((a, b)),
        forall|a: &str, b: &str| copy_remove.requires((a, b)),
    ensures
        executed(occupied, make_dirs, rename, copy_remove, plan_views(plan@), r.0 as nat, string_views(r.1@)),
        r.0 + r.1.len() == plan.len(),
{
    let mut moved: usize = 0;
    let mut errors: Vec<String> = Vec::new();
    let ghost mut outs: Seq<Option<Seq<char>>> = seq![];
    for i in 0..plan.len()
        invariant
            forall|p: &str| occupied.requires((p,)),
            forall|p: &str| make_dirs.requires((p,)),
            forall|a: &str, b: &str| rename.requires((a, b)),
            forall|a: &str, b: &str| copy_remove.requires((a, b)),
            outs.len() == i,
            forall|k: int| 0 <= k < i ==> exec_step_ok(occupied, make_dirs, rename, copy_remove, plan@[k]@, #[trigger] outs[k]),
            moved == count_moved(outs),
            string_views(errors@) == outcome_errors(outs),
    {
        let res = execute_one(&plan[i], occupied, make_dirs, rename, copy_remove);
        let ghost o = match &res {
            Some(m) => Some(m@),
            None => None,
        };
        proof {
            lemma_outs_push(outs, o);
            lemma_count_moved_bound(outs);
        }
        let ghost old_errors = errors@;
        match res {
            Some(m) => {
                errors.push(m);
                assert(string_views(errors@) =~= string_views(old_errors).push(errors@.last()@));
            },
            None => {
                moved = moved + 1;
            },
        }
        proof {
            outs = outs.push(o);
        }
    }
    proof {
        assert(plan_views(plan@).len() == outs.len());
        assert forall|k: int| 0 <= k < outs.len() implies exec_step_ok(occupied, make_dirs, rename, copy_remove, plan_views(plan@)[k], #[trigger] outs[k]) by {
            assert(plan_views(plan@)[k] == plan@[k]@);
        }
        lemma_outs_split(outs);
    }
    (moved, errors)
}


// ---------------------------------------------------------------------------
// Moving the non-kept folders
// ---------------------------------------------------------------------------

/// The folders marked to keep, in order.
pub open spec fn kept_folders(folders: Seq<Folder>) -> Seq<Folder> {
    picked(folders, |i: int| folders[i].keep)
}

/// Move every file in every non-kept folder to `target/<path relative to
/// root>`. Returns (moved, errors): the planning errors, then the
/// per-file errors of the moves, so one bad file doesn't abort the batch.
/// The moved folders are then dropped from `folders`; the kept ones stay
/// as they were.
pub fn move_non_kept<F: Fn(&str) -> bool, M: Fn(&str) -> Result<(), String>, R: Fn(&str, &str) -> Result<(), RenameFailure>, C: Fn(&str, &str) -> Result<(), String>>(
    folders: &mut Vec<Folder>,
    root: &str,
    target: &str,
    occupied: &F,
    make_dirs: &M,
    rename: &R,
    copy_remove: &C,
) -> (r: (usize, Vec<String>))
    requires
        forall|p: &str| occupied.requires((p,)),
        forall|p: &str| make_dirs.requires((p,)),
        forall|a: &str, b: &str| rename.requires((a, b)),
        forall|a: &str, b: &str| copy_remove.requires((a, b)),
    ensures
        exists|plan: Seq<MovePlanItem>, plan_errors: Seq<String>, move_errors: Seq<Seq<char>>| {
            &&& planned(occupied, root@, target@, move_sources(old(folders)@), plan, plan_errors)
            &&& executed(occupied, make_dirs, rename, copy_remove, plan_views(plan), r.0 as nat, move_errors)
            &&& string_views(r.1@) == string_views(plan_errors) + move_errors
        },
        final(folders)@ == kept_folders(old(folders)@),
        r.0 + r.1.len() == move_sources(old(folders)@).len(),
{
    let (plan, mut errors) = plan_move(folders, root, target, occupied);
    proof {
        law_plan_accounts_for_every_file(occupied, root@, target@, folders@, plan@, errors@);
    }
    let (moved, mut exec_errors) = execute_move(&plan, occupied, make_dirs, rename, copy_remove);
    let ghost plan_errors = errors@;
    let ghost move_errors = string_views(exec_errors@);
    errors.append(&mut exec_errors);
    assert(string_views(errors@) =~= string_views(plan_errors) + move_errors);
    let mut all: Vec<Folder> = Vec::new();
    std::mem::swap(&mut all, folders);
    let ghost src = all@;
    let mut kept: Vec<Folder> = Vec::new();
    for f in it: all.into_iter()
        invariant
            it.seq() == src,
            kept@ == picked(src.take(it.index() as int), |i: int| src[i].keep),
    {
        let ghost k = it.index() as int;
        proof {
            assert(src.take(k + 1) =~= src.take(k).push(src[k]));
            crate::model::lemma_picked_push(src.take(k), src[k], |i: int| src[i].keep);
            crate::model::lemma_picked_agree(src.take(k + 1), |i: int| src.take(k + 1)[i].keep, |i: int| src[i].keep);
        }
        if f.keep {
            kept.push(f);
        }
    }
    proof {
        assert(src.take(src.len() as int) =~= src);
    }
    *folders = kept;
    (moved, errors)
}


// ---------------------------------------------------------------------------
// Laws of planning and moving
// ---------------------------------------------------------------------------

proof fn lemma_steps_split(steps: Seq<PlanStep>)
    ensures
        step_moves(steps).len() + step_errors(steps).len() == steps.len(),
    decreases steps.len(),
{
    if steps.len() > 0 {
        lemma_steps_split(steps.drop_last());
    }
}

proof fn lemma_step_moves_from(steps: Seq<PlanStep>)
    ensures
        forall|t: int| #![trigger step_moves(steps)[t]] 0 <= t < step_moves(steps).len() ==> exists|i: int|
            0 <= i < steps.len() && #[trigger] steps[i] == PlanStep::Move(step_moves(steps)[t]),
    decreases steps.len(),
{
    if steps.len() > 0 {
        let init = steps.drop_last();
        lemma_step_moves_from(init);
        assert forall|t: int| #![trigger step_moves(steps)[t]] 0 <= t < step_moves(steps).len() implies exists|i: int|
            0 <= i < steps.len() && #[trigger] steps[i] == PlanStep::Move(step_moves(steps)[t]) by {
            if t < step_moves(init).len() {
                let i = choose|i: int| 0 <= i < init.len() && #[trigger] init[i] == PlanStep::Move(step_moves(init)[t]);
                assert(steps[i] == init[i]);
            } else {
                assert(steps[steps.len() - 1] == PlanStep::Move(step_moves(steps)[t]));
            }
        }
    }
}

proof fn lemma_outs_split(outs: Seq<Option<Seq<char>>>)
    ensures
        count_moved(outs) + outcome_errors(outs).len() == outs.len(),
    decreases outs.len(),
{
    if outs.len() > 0 {
        lemma_outs_split(outs.drop_last());
    }
}

/// `f` is one of the files of a folder not kept.
pub open spec fn in_unkept_folder(folders: Seq<Folder>, f: FileView) -> bool {
    exists|k: int, m: int|
        0 <= k < folders.len() && !folders[k].keep && 0 <= m < folders[k].files.len()
            && #[trigger] folders[k].files@[m]@ == f
}

proof fn lemma_move_sources_from(folders: Seq<Folder>)
    ensures
        forall|i: int| 0 <= i < move_sources(folders).len() ==> in_unkept_folder(folders, #[trigger] move_sources(folders)[i]),
    decreases folders.len(),
{
    if folders.len() > 0 {
        let init = folders.drop_last();
        lemma_move_sources_from(init);
        assert forall|i: int| 0 <= i < move_sources(folders).len() implies in_unkept_folder(folders, #[trigger] move_sources(folders)[i]) by {
            if i < move_sources(init).len() {
                assert(move_sources(folders)[i] == move_sources(init)[i]);
                assert(in_unkept_folder(init, move_sources(init)[i]));
                let (k, m) = choose|k: int, m: int|
                    0 <= k < init.len() && !init[k].keep && 0 <= m < init[k].files.len()
                        && #[trigger] init[k].files@[m]@ == move_sources(init)[i];
                assert(folders[k] == init[k]);
                assert(folders[k].files@[m]@ == move_sources(folders)[i]);
            } else {
                let k = folders.len() - 1;
                let m = i - move_sources(init).len();
                assert(!folders[k].keep);
                assert(folders[k].files@[m]@ == move_sources(folders)[i]);
            }
        }
    }
}

proof fn lemma_all_kept_sources(folders: Seq<Folder>)
    requires
        forall|k: int| 0 <= k < folders.len() ==> (#[trigger] folders[k]).keep,
    ensures
        move_sources(folders).len() == 0,
    decreases folders.len(),
{
    if folders.len() > 0 {
        lemma_all_kept_sources(folders.drop_last());
    }
}

/// Planning gives, for each file of a folder not kept, exactly one plan
/// item or one error.
pub proof fn law_plan_accounts_for_every_file<F: Fn(&str) -> bool>(
    occupied: &F,
    root: Seq<char>,
    target: Seq<char>,
    folders: Seq<Folder>,
    plan: Seq<MovePlanItem>,
    errors: Seq<String>,
)
    requires
        planned(occupied, root, target, move_sources(folders), plan, errors),
    ensures
        plan.len() + errors.len() == move_sources(folders).len(),
{
    let sources = move_sources(folders);
    let steps = choose|steps: Seq<PlanStep>| {
        &&& steps.len() == sources.len()
        &&& forall|i: int| 0 <= i < steps.len() ==> plan_step_ok(occupied, root, target, sources[i], #[trigger] steps[i])
        &&& plan_views(plan) == step_moves(steps)
        &&& string_views(errors) == step_errors(steps)
    };
    lemma_steps_split(steps);
    assert(plan_views(plan).len() == plan.len());
    assert(string_views(errors).len() == errors.len());
}

/// A plan only moves files of folders not kept, each to a destination that
/// was reported free (an existing file is never overwritten), keeping the
/// file's size.
pub proof fn law_plan_moves_only_unkept_files_to_free_names<F: Fn(&str) -> bool>(
    occupied: &F,
    root: Seq<char>,
    target: Seq<char>,
    folders: Seq<Folder>,
    plan: Seq<MovePlanItem>,
    errors: Seq<String>,
)
    requires
        planned(occupied, root, target, move_sources(folders), plan, errors),
    ensures
        forall|t: int| 0 <= t < plan.len() ==> answered(occupied, (#[trigger] plan[t]).dest@, false),
        forall|t: int| 0 <= t < plan.len() ==> in_unkept_folder(folders, FileView { path: (#[trigger] plan[t]).src@, size: plan[t].size }),
{
    let sources = move_sources(folders);
    let steps = choose|steps: Seq<PlanStep>| {
        &&& steps.len() == sources.len()
        &&& forall|i: int| 0 <= i < steps.len() ==> plan_step_ok(occupied, root, target, sources[i], #[trigger] steps[i])
        &&& plan_views(plan) == step_moves(steps)
        &&& string_views(errors) == step_errors(steps)
    };
    lemma_step_moves_from(steps);
    lemma_move_sources_from(folders);
    assert forall|t: int| 0 <= t < plan.len() implies answered(occupied, (#[trigger] plan[t]).dest@, false)
        && in_unkept_folder(folders, FileView { path: plan[t].src@, size: plan[t].size }) by {
        assert(plan_views(plan)[t] == plan[t]@);
        let i = choose|i: int| 0 <= i < steps.len() && #[trigger] steps[i] == PlanStep::Move(step_moves(steps)[t]);
        assert(plan_step_ok(occupied, root, target, sources[i], steps[i]));
        assert(in_unkept_folder(folders, move_sources(folders)[i]));
        assert(sources[i] == FileView { path: plan[t].src@, size: plan[t].size });
        let base = join_of(target, strip_prefix_of(sources[i].path, root).unwrap());
        let n = choose|n: nat| #![trigger candidate(base, n)]
            n <= u32::MAX && plan[t].dest@ == candidate(base, n) && answered(occupied, plan[t].dest@, false)
            && forall|k: nat| k < n ==> answered(occupied, #[trigger] candidate(base, k), true);
    }
}

/// When every folder is kept, planning moves nothing and reports nothing.
pub proof fn law_all_kept_plans_nothing<F: Fn(&str) -> bool>(
    occupied: &F,
    root: Seq<char>,
    target: Seq<char>,
    folders: Seq<Folder>,
    plan: Seq<MovePlanItem>,
    errors: Seq<String>,
)
    requires
        forall|k: int| 0 <= k < folders.len() ==> (#[trigger] folders[k]).keep,
        planned(occupied, root, target, move_sources(folders), plan, errors),
    ensures
        plan.len() == 0,
        errors.len() == 0,
{
    lemma_all_kept_sources(folders);
    law_plan_accounts_for_every_file(occupied, root, target, folders, plan, errors);
}

/// Executing a plan reports, for each item, either one move or one error:
/// a failing file does not stop the batch.
pub proof fn law_execution_accounts_for_every_item<F: Fn(&str) -> bool, M: Fn(&str) -> Result<(), String>, R: Fn(&str, &str) -> Result<(), RenameFailure>, C: Fn(&str, &str) -> Result<(), String>>(
    occupied: &F,
    make_dirs: &M,
    rename: &R,
    copy_remove: &C,
    plan: Seq<PlanView>,
    moved: nat,
    errors: Seq<Seq<char>>,
)
    requires
        executed(occupied, make_dirs, rename, copy_remove, plan, moved, errors),
    ensures
        moved + errors.len() == plan.len(),
{
    let outs = choose|outs: Seq<Option<Seq<char>>>| {
        &&& outs.len() == plan.len()
        &&& forall|i: int| 0 <= i < outs.len() ==> exec_step_ok(occupied, make_dirs, rename, copy_remove, plan[i], #[trigger] outs[i])
        &&& moved == count_moved(outs)
        &&& errors == outcome_errors(outs)
    };
    lemma_outs_split(outs);
}

/// After a move only the kept folders remain listed, so planning again
/// moves nothing.
pub proof fn law_nothing_left_to_plan_after_move<F: Fn(&str) -> bool>(
    occupied: &F,
    root: Seq<char>,
    target: Seq<char>,
    folders: Seq<Folder>,
    plan: Seq<MovePlanItem>,
    errors: Seq<String>,
)
    requires
        planned(occupied, root, target, move_sources(kept_folders(folders)), plan, errors),
    ensures
        plan.len() == 0,
        errors.len() == 0,
{
    let pick = |i: int| folders[i].keep;
    crate::model::lemma_picked_from(folders, pick);
    assert forall|k: int| 0 <= k < kept_folders(folders).len() implies (#[trigger] kept_folders(folders)[k]).keep by {
        assert(picked(folders, pick)[k] == kept_folders(folders)[k]);
        let i = choose|i: int| 0 <= i < folders.len() && pick(i) && #[trigger] folders[i] == picked(folders, pick)[k];
    }
    law_all_kept_plans_nothing(occupied, root, target, kept_folders(folders), plan, errors);
}

} // verus!
