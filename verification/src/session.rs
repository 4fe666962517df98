//! What the user interfaces do with the folder list: marking folders to
//! keep, summing it up, previewing and running the move, which is blocked
//! until at least one folder is kept.
use vstd::prelude::*;
use crate::model::{Folder, FileView, file_views, size_sum, picked, lemma_size_sum_push, lemma_size_sum_nonneg};
use crate::move_files::{
    MovePlanItem, PlanStep, PlanView, RenameFailure, move_sources, plan_move, planned, plan_views,
    plan_step_ok, step_moves, move_non_kept, executed, string_views, kept_folders,
};
use crate::path::{path_starts_with, starts_with};

verus! {

/// Number of folders marked to keep.
pub open spec fn kept_count(folders: Seq<Folder>) -> nat
    decreases folders.len(),
{
    if folders.len() == 0 {
        0
    } else {
        kept_count(folders.drop_last()) + if folders.last().keep { 1nat } else { 0nat }
    }
}

/// Number of files over all folders.
pub open spec fn file_count(folders: Seq<Folder>) -> nat
    decreases folders.len(),
{
    if folders.len() == 0 {
        0
    } else {
        file_count(folders.drop_last()) + folders.last().files.len() as nat
    }
}

/// Sum of the folders' total sizes.
pub open spec fn size_total(folders: Seq<Folder>) -> nat
    decreases folders.len(),
{
    if folders.len() == 0 {
        0
    } else {
        size_total(folders.drop_last()) + folders.last().total_size as nat
    }
}

/// Moving is blocked: there are folders, and none is kept.
pub open spec fn blocked(folders: Seq<Folder>) -> bool {
    kept_count(folders) == 0 && folders.len() > 0
}

proof fn lemma_counts_step(folders: Seq<Folder>, i: int)
    requires
        0 <= i < folders.len(),
    ensures
        kept_count(folders.take(i + 1)) == kept_count(folders.take(i)) + if folders[i].keep { 1nat } else { 0nat },
        file_count(folders.take(i + 1)) == file_count(folders.take(i)) + folders[i].files.len(),
        size_total(folders.take(i + 1)) == size_total(folders.take(i)) + folders[i].total_size,
{
    assert(folders.take(i + 1).drop_last() =~= folders.take(i));
}

proof fn lemma_counts_monotone(folders: Seq<Folder>, i: int, j: int)
    requires
        0 <= i <= j <= folders.len(),
    ensures
        kept_count(folders.take(i)) <= kept_count(folders.take(j)),
        file_count(folders.take(i)) <= file_count(folders.take(j)),
        size_total(folders.take(i)) <= size_total(folders.take(j)),
    decreases j - i,
{
    if i < j {
        lemma_counts_monotone(folders, i, j - 1);
        lemma_counts_step(folders, j - 1);
    }
}

proof fn lemma_kept_count_bound(folders: Seq<Folder>)
    ensures
        kept_count(folders) <= folders.len(),
    decreases folders.len(),
{
    if folders.len() > 0 {
        lemma_kept_count_bound(folders.drop_last());
    }
}

proof fn lemma_kept_count_zero(folders: Seq<Folder>)
    ensures
        kept_count(folders) == 0 <==> forall|i: int| 0 <= i < folders.len() ==> !(#[trigger] folders[i]).keep,
    decreases folders.len(),
{
    if folders.len() > 0 {
        let init = folders.drop_last();
        lemma_kept_count_zero(init);
        if kept_count(folders) == 0 {
            assert forall|i: int| 0 <= i < folders.len() implies !(#[trigger] folders[i]).keep by {
                if i < init.len() {
                    assert(init[i] == folders[i]);
                }
            }
        }
        if forall|i: int| 0 <= i < folders.len() ==> !(#[trigger] folders[i]).keep {
            assert forall|i: int| 0 <= i < init.len() implies !(#[trigger] init[i]).keep by {
                assert(init[i] == folders[i]);
            }
            assert(!folders[folders.len() - 1].keep);
        }
    }
}

/// Moving (and previewing) is refused exactly when folders are listed and
/// not one of them is marked to keep; a single listed folder that is not
/// kept blocks too.
pub proof fn law_blocked_exactly_when_nothing_kept(folders: Seq<Folder>)
    ensures
        blocked(folders) <==> (folders.len() > 0 && forall|i: int| 0 <= i < folders.len() ==> !(#[trigger] folders[i]).keep),
        folders.len() == 0 ==> !blocked(folders),
        forall|i: int| 0 <= i < folders.len() && (#[trigger] folders[i]).keep ==> !blocked(folders),
{
    lemma_kept_count_zero(folders);
}

/// Number of folders marked to keep.
pub fn count_kept(folders: &Vec<Folder>) -> (r: usize)
    ensures
        r == kept_count(folders@),
{
    let mut n: usize = 0;
    for i in 0..folders.len()
        invariant
            n == kept_count(folders@.take(i as int)),
            n <= i,
    {
        proof {
            lemma_counts_step(folders@, i as int);
        }
        if folders[i].keep {
            n = n + 1;
        }
    }
    assert(folders@.take(folders.len() as int) =~= folders@);
    n
}

/// The figures the state view shows: folders kept, files listed, bytes
/// listed.
pub fn state_summary(folders: &Vec<Folder>) -> (r: (usize, usize, u64))
    requires
        file_count(folders@) <= usize::MAX,
        size_total(folders@) <= u64::MAX,
    ensures
        r.0 == kept_count(folders@),
        r.1 == file_count(folders@),
        r.2 == size_total(folders@),
{
    let kept = count_kept(folders);
    let mut files: usize = 0;
    let mut bytes: u64 = 0;
    for i in 0..folders.len()
        invariant
            files == file_count(folders@.take(i as int)),
            bytes == size_total(folders@.take(i as int)),
            file_count(folders@) <= usize::MAX,
            size_total(folders@) <= u64::MAX,
    {
        proof {
            lemma_counts_step(folders@, i as int);
            lemma_counts_monotone(folders@, i + 1, folders.len() as int);
            assert(folders@.take(folders.len() as int) =~= folders@);
        }
        files = files + folders[i].files.len();
        bytes = bytes + folders[i].total_size;
    }
    assert(folders@.take(folders.len() as int) =~= folders@);
    (kept, files, bytes)
}

/// Whether the figures of `state_summary` fit their types.
pub fn summary_fits(folders: &Vec<Folder>) -> (r: bool)
    ensures
        r == (file_count(folders@) <= usize::MAX && size_total(folders@) <= u64::MAX),
{
    let mut files: usize = 0;
    let mut bytes: u64 = 0;
    for i in 0..folders.len()
        invariant
            files == file_count(folders@.take(i as int)),
            bytes == size_total(folders@.take(i as int)),
    {
        proof {
            lemma_counts_step(folders@, i as int);
        }
        if files > usize::MAX - folders[i].files.len() || bytes > u64::MAX - folders[i].total_size {
            proof {
                lemma_counts_monotone(folders@, i + 1, folders.len() as int);
                assert(folders@.take(folders.len() as int) =~= folders@);
            }
            return false;
        }
        files = files + folders[i].files.len();
        bytes = bytes + folders[i].total_size;
    }
    assert(folders@.take(folders.len() as int) =~= folders@);
    true
}

/// Whether moving is blocked (folders are listed but none is kept).
pub fn move_blocked(folders: &Vec<Folder>) -> (r: bool)
    ensures
        r == blocked(folders@),
{
    count_kept(folders) == 0 && folders.len() > 0
}

// ---------------------------------------------------------------------------
// Marking folders
// ---------------------------------------------------------------------------

/// `f` with its mark set to `keep`.
pub open spec fn marked(f: Folder, keep: bool) -> Folder {
    Folder { keep, ..f }
}

/// Mark every folder whose canonical path lies under `target` (the target
/// itself included) as kept or not: keeping a folder keeps all of its
/// subfolders. `canonical[i]` is the canonical path of `folders[i]`.
/// Returns how many folders were marked.
pub fn mark_subtree(folders: &mut Vec<Folder>, canonical: &Vec<String>, target: &str, keep: bool) -> (r: usize)
    requires
        canonical.len() == old(folders).len(),
    ensures
        final(folders).len() == old(folders).len(),
        forall|i: int| 0 <= i < old(folders).len() ==> (#[trigger] final(folders)@[i]) == if starts_with(canonical@[i]@, target@) {
            marked(old(folders)@[i], keep)
        } else {
            old(folders)@[i]
        },
        r == picked(old(folders)@, |i: int| starts_with(canonical@[i]@, target@)).len(),
{
    let mut all: Vec<Folder> = Vec::new();
    std::mem::swap(&mut all, folders);
    let ghost src = all@;
    let ghost under = |i: int| starts_with(canonical@[i]@, target@);
    let mut out: Vec<Folder> = Vec::new();
    let mut count: usize = 0;
    for f in it: all.into_iter()
        invariant
            it.seq() == src,
            canonical.len() == src.len(),
            under == (|i: int| starts_with(canonical@[i]@, target@)),
            out.len() == it.index(),
            forall|i: int| 0 <= i < out.len() ==> (#[trigger] out@[i]) == if under(i) {
                marked(src[i], keep)
            } else {
                src[i]
            },
            count == picked(src.take(it.index() as int), under).len(),
            count <= it.index(),
    {
        let ghost k = it.index() as int;
        proof {
            assert(src.take(k + 1) =~= src.take(k).push(src[k]));
            crate::model::lemma_picked_push(src.take(k), src[k], under);
        }
        let mut g = f;
        let i = out.len();
        if path_starts_with(canonical[i].as_str(), target) {
            g.keep = keep;
            count = count + 1;
        }
        out.push(g);
    }
    assert(src.take(src.len() as int) =~= src);
    *folders = out;
    count
}

/// Mark every folder as kept (or none). Returns the number of folders.
pub fn mark_all(folders: &mut Vec<Folder>, keep: bool) -> (r: usize)
    ensures
        final(folders).len() == old(folders).len(),
        forall|i: int| 0 <= i < old(folders).len() ==> (#[trigger] final(folders)@[i]) == marked(old(folders)@[i], keep),
        r == old(folders).len(),
{
    let mut all: Vec<Folder> = Vec::new();
    std::mem::swap(&mut all, folders);
    let ghost src = all@;
    let n = all.len();
    let mut out: Vec<Folder> = Vec::new();
    for f in it: all.into_iter()
        invariant
            it.seq() == src,
            out.len() == it.index(),
            forall|i: int| 0 <= i < out.len() ==> (#[trigger] out@[i]) == marked(src[i], keep),
    {
        let mut g = f;
        g.keep = keep;
        out.push(g);
    }
    *folders = out;
    n
}

// ---------------------------------------------------------------------------
// Preview and move
// ---------------------------------------------------------------------------

/// The answer to a preview: the plan, its total size, and the errors.
#[derive(Debug, Clone)]
pub struct PreviewResult {
    pub ok: bool,
    pub kept_folders: usize,
    pub plan: Vec<MovePlanItem>,
    pub total_size: u64,
    pub errors: Vec<String>,
}

/// The answer to a move request.
#[derive(Debug, Clone)]
pub struct MoveResult {
    pub ok: bool,
    pub moved: usize,
    pub kept_folders: usize,
    pub errors: Vec<String>,
}

/// Sum of the sizes of the planned moves.
pub open spec fn plan_size(plan: Seq<PlanView>) -> nat
    decreases plan.len(),
{
    if plan.len() == 0 {
        0
    } else {
        plan_size(plan.drop_last()) + plan.last().size as nat
    }
}

/// Why moving is refused while no folder is kept.
pub open spec fn blocked_message() -> Seq<char> {
    "No folder is marked to keep \u{2014} move blocked. Check at least one folder."@
}

/// The moves planned for some files weigh no more than the files.
proof fn lemma_moves_size<F: Fn(&str) -> bool>(
    occupied: &F,
    root: Seq<char>,
    target: Seq<char>,
    sources: Seq<FileView>,
    steps: Seq<PlanStep>,
)
    requires
        steps.len() == sources.len(),
        forall|i: int| 0 <= i < steps.len() ==> plan_step_ok(occupied, root, target, sources[i], #[trigger] steps[i]),
    ensures
        plan_size(step_moves(steps)) <= size_sum(sources),
    decreases steps.len(),
{
    if steps.len() > 0 {
        let n = steps.len() - 1;
        assert forall|i: int| 0 <= i < steps.drop_last().len() implies plan_step_ok(occupied, root, target, sources.drop_last()[i], #[trigger] steps.drop_last()[i]) by {
            assert(steps.drop_last()[i] == steps[i]);
            assert(sources.drop_last()[i] == sources[i]);
        }
        lemma_moves_size(occupied, root, target, sources.drop_last(), steps.drop_last());
        assert(plan_step_ok(occupied, root, target, sources[n], steps[n]));
        assert(sources.drop_last().push(sources.last()) =~= sources);
        lemma_size_sum_push(sources.drop_last(), sources.last());
        match steps.last() {
            PlanStep::Move(it) => {
                assert(step_moves(steps) == step_moves(steps.drop_last()).push(it));
                assert(step_moves(steps).drop_last() =~= step_moves(steps.drop_last()));
            },
            PlanStep::Error(_) => {},
        }
    }
}

/// Sum of the sizes of a plan.
fn plan_total(plan: &Vec<MovePlanItem>) -> (r: u64)
    requires
        plan_size(plan_views(plan@)) <= u64::MAX,
    ensures
        r == plan_size(plan_views(plan@)),
{
    let mut t: u64 = 0;
    for i in 0..plan.len()
        invariant
            t == plan_size(plan_views(plan@.take(i as int))),
            plan_size(plan_views(plan@)) <= u64::MAX,
    {
        proof {
            assert(plan_views(plan@.take(i + 1)).drop_last() =~= plan_views(plan@.take(i as int)));
            lemma_plan_size_prefix(plan_views(plan@), i + 1);
            assert(plan_views(plan@).take(i + 1) =~= plan_views(plan@.take(i + 1)));
        }
        t = t + plan[i].size;
    }
    assert(plan@.take(plan.len() as int) =~= plan@);
    t
}

proof fn lemma_plan_size_prefix(p: Seq<PlanView>, k: int)
    requires
        0 <= k <= p.len(),
    ensures
        plan_size(p.take(k)) <= plan_size(p),
    decreases p.len() - k,
{
    if k < p.len() {
        lemma_plan_size_prefix(p, k + 1);
        assert(p.take(k + 1).drop_last() =~= p.take(k));
    } else {
        assert(p.take(k) =~= p);
    }
}

/// Whether the files of the folders not kept weigh at most `u64::MAX`
/// bytes in all.
pub fn sources_fit(folders: &Vec<Folder>) -> (r: bool)
    ensures
        r == (size_sum(move_sources(folders@)) <= u64::MAX),
{
    let mut total: u64 = 0;
    for i in 0..folders.len()
        invariant
            total == size_sum(move_sources(folders@.take(i as int))),
    {
        let ghost prev = folders@.take(i as int);
        proof {
            assert(folders@.take(i + 1).drop_last() =~= prev);
            assert(folders@.take(i + 1).last() == folders@[i as int]);
        }
        if !folders[i].keep {
            let files = &folders[i].files;
            for j in 0..files.len()
                invariant
                    i < folders.len(),
                    !folders@[i as int].keep,
                    files == &folders@[i as int].files,
                    prev == folders@.take(i as int),
                    total == size_sum(move_sources(prev) + crate::model::file_views(files@.take(j as int))),
            {
                proof {
                    assert(crate::model::file_views(files@.take(j + 1)) =~= crate::model::file_views(files@.take(j as int)).push(files@[j as int]@));
                    assert(move_sources(prev) + crate::model::file_views(files@.take(j + 1))
                        =~= (move_sources(prev) + crate::model::file_views(files@.take(j as int))).push(files@[j as int]@));
                    lemma_size_sum_push(move_sources(prev) + crate::model::file_views(files@.take(j as int)), files@[j as int]@);
                }
                if total > u64::MAX - files[j].size {
                    proof {
                        lemma_sources_fit_prefix(folders@, i as int, j as int + 1);
                    }
                    return false;
                }
                total = total + files[j].size;
            }
            assert(files@.take(files.len() as int) =~= files@);
        }
    }
    assert(folders@.take(folders.len() as int) =~= folders@);
    true
}

/// The files moved from the first `i` folders and the first `j` files of
/// folder `i` weigh no more than all the files moved.
proof fn lemma_sources_fit_prefix(folders: Seq<Folder>, i: int, j: int)
    requires
        0 <= i < folders.len(),
        !folders[i].keep,
        0 <= j <= folders[i].files.len(),
    ensures
        size_sum(move_sources(folders.take(i)) + crate::model::file_views(folders[i].files@.take(j)))
            <= size_sum(move_sources(folders)),
{
    let fv = crate::model::file_views(folders[i].files@);
    assert(crate::model::file_views(folders[i].files@.take(j)) =~= fv.take(j));
    assert(folders.take(i + 1).drop_last() =~= folders.take(i));
    assert(move_sources(folders.take(i + 1)) == move_sources(folders.take(i)) + fv);
    lemma_size_sum_prefix(move_sources(folders.take(i)) + fv, move_sources(folders.take(i)).len() + j);
    assert((move_sources(folders.take(i)) + fv).take(move_sources(folders.take(i)).len() + j)
        =~= move_sources(folders.take(i)) + fv.take(j));
    lemma_move_sources_prefix(folders, i + 1);
}

proof fn lemma_size_sum_prefix(v: Seq<FileView>, k: int)
    requires
        0 <= k <= v.len(),
    ensures
        size_sum(v.take(k)) <= size_sum(v),
    decreases v.len() - k,
{
    if k < v.len() {
        lemma_size_sum_prefix(v, k + 1);
        assert(v.take(k + 1).drop_last() =~= v.take(k));
    } else {
        assert(v.take(k) =~= v);
    }
}

proof fn lemma_move_sources_prefix(folders: Seq<Folder>, k: int)
    requires
        0 <= k <= folders.len(),
    ensures
        size_sum(move_sources(folders.take(k))) <= size_sum(move_sources(folders)),
    decreases folders.len() - k,
{
    if k < folders.len() {
        lemma_move_sources_prefix(folders, k + 1);
        let a = folders.take(k + 1);
        assert(a.drop_last() =~= folders.take(k));
        if !a.last().keep {
            crate::model::lemma_size_sum_concat(move_sources(folders.take(k)), crate::model::file_views(a.last().files@));
        }
    } else {
        assert(folders.take(k) =~= folders);
    }
}

/// The total size of a plan, or `None` when it exceeds `u64::MAX`.
pub fn plan_bytes(plan: &Vec<MovePlanItem>) -> (r: Option<u64>)
    ensures
        r matches Some(t) ==> t == plan_size(plan_views(plan@)),
        r is None <==> plan_size(plan_views(plan@)) > u64::MAX,
{
    let mut t: u64 = 0;
    for i in 0..plan.len()
        invariant
            t == plan_size(plan_views(plan@.take(i as int))),
    {
        proof {
            assert(plan_views(plan@.take(i + 1)).drop_last() =~= plan_views(plan@.take(i as int)));
        }
        if t > u64::MAX - plan[i].size {
            proof {
                lemma_plan_size_prefix(plan_views(plan@), i + 1);
                assert(plan_views(plan@).take(i + 1) =~= plan_views(plan@.take(i + 1)));
            }
            return None;
        }
        t = t + plan[i].size;
    }
    assert(plan@.take(plan.len() as int) =~= plan@);
    Some(t)
}

/// Build (but do not execute) the move plan, with the same guard as the
/// move: while folders are listed and none is kept, nothing is planned.
pub fn preview_move<F: Fn(&str) -> bool>(folders: &Vec<Folder>, root: &str, target: &str, occupied: &F) -> (r: PreviewResult)
    requires
        forall|p: &str| occupied.requires((p,)),
        !blocked(folders@) ==> size_sum(move_sources(folders@)) <= u64::MAX,
    ensures
        blocked(folders@) ==> {
            &&& !r.ok
            &&& r.kept_folders == 0
            &&& r.plan@.len() == 0
            &&& r.total_size == 0
            &&& string_views(r.errors@) == seq![blocked_message()]
        },
        !blocked(folders@) ==> {
            &&& planned(occupied, root@, target@, move_sources(folders@), r.plan@, r.errors@)
            &&& r.kept_folders == kept_count(folders@)
            &&& r.total_size == plan_size(plan_views(r.plan@))
            &&& r.ok == (r.errors@.len() == 0)
        },
{
    let kept = count_kept(folders);
    if kept == 0 && folders.len() > 0 {
        let mut errors: Vec<String> = Vec::new();
        errors.push(String::from_str("No folder is marked to keep \u{2014} move blocked. Check at least one folder."));
        assert(string_views(errors@) =~= seq![blocked_message()]);
        return PreviewResult { ok: false, kept_folders: 0, plan: Vec::new(), total_size: 0, errors };
    }
    let (plan, errors) = plan_move(folders, root, target, occupied);
    proof {
        let steps = choose|steps: Seq<PlanStep>| {
            &&& steps.len() == move_sources(folders@).len()
            &&& forall|i: int| 0 <= i < steps.len() ==> plan_step_ok(occupied, root@, target@, move_sources(folders@)[i], #[trigger] steps[i])
            &&& plan_views(plan@) == step_moves(steps)
            &&& string_views(errors@) == step_errors_of(steps)
        };
        lemma_moves_size(occupied, root@, target@, move_sources(folders@), steps);
    }
    let total = plan_total(&plan);
    let ok = errors.len() == 0;
    PreviewResult { ok, kept_folders: kept, plan, total_size: total, errors }
}

pub open spec fn step_errors_of(steps: Seq<PlanStep>) -> Seq<Seq<char>> {
    crate::move_files::step_errors(steps)
}

/// Move the files of the non-kept folders, with the guard: while folders
/// are listed and none is kept, nothing moves. Afterwards only the kept
/// folders remain listed.
pub fn move_marked<F: Fn(&str) -> bool, M: Fn(&str) -> Result<(), String>, R: Fn(&str, &str) -> Result<(), RenameFailure>, C: Fn(&str, &str) -> Result<(), String>>(
    folders: &mut Vec<Folder>,
    root: &str,
    target: &str,
    occupied: &F,
    make_dirs: &M,
    rename: &R,
    copy_remove: &C,
) -> (r: MoveResult)
    requires
        forall|p: &str| occupied.requires((p,)),
        forall|p: &str| make_dirs.requires((p,)),
        forall|a: &str, b: &str| rename.requires((a, b)),
        forall|a: &str, b: &str| copy_remove.requires((a, b)),
    ensures
        blocked(old(folders)@) ==> {
            &&& !r.ok
            &&& r.moved == 0
            &&& r.kept_folders == 0
            &&& string_views(r.errors@) == seq![blocked_message()]
            &&& final(folders)@ == old(folders)@
        },
        !blocked(old(folders)@) ==> {
            &&& exists|plan: Seq<MovePlanItem>, plan_errors: Seq<String>, move_errors: Seq<Seq<char>>| {
                &&& planned(occupied, root@, target@, move_sources(old(folders)@), plan, plan_errors)
                &&& executed(occupied, make_dirs, rename, copy_remove, plan_views(plan), r.moved as nat, move_errors)
                &&& string_views(r.errors@) == string_views(plan_errors) + move_errors
            }
            &&& final(folders)@ == kept_folders(old(folders)@)
            &&& r.moved + r.errors@.len() == move_sources(old(folders)@).len()
            &&& r.kept_folders == kept_count(final(folders)@)
            &&& r.ok == (r.errors@.len() == 0)
        },
{
    let kept = count_kept(folders);
    if kept == 0 && folders.len() > 0 {
        let mut errors: Vec<String> = Vec::new();
        errors.push(String::from_str("No folder is marked to keep \u{2014} move blocked. Check at least one folder."));
        assert(string_views(errors@) =~= seq![blocked_message()]);
        return MoveResult { ok: false, moved: 0, kept_folders: 0, errors };
    }
    let (moved, errors) = move_non_kept(folders, root, target, occupied, make_dirs, rename, copy_remove);
    let kept_after = count_kept(folders);
    let ok = errors.len() == 0;
    MoveResult { ok, moved, kept_folders: kept_after, errors }
}

} // verus!
