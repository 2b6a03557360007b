//! Actions derived from a validated snapshot, and the planning of their
//! execution.

use vstd::prelude::*;
use vstd::string::*;
use crate::error::AppError;
use crate::fileutil::{
    normalize_path, normalize_path_spec, normalize_symlink_src_path, parent_spec,
    spec_is_absolute, within_root_spec,
};

verus! {

/// One action the executor will perform for one snapshot entry.
///
/// `is_no_op` marks an action whose effect is already present on disk.
#[derive(Debug, Clone, PartialEq, Eq)]
pub enum Action {
    Keep(String),
    Symlink { path: String, source: String, is_explicit: bool, is_no_op: bool },
    Delete { path: String, is_no_op: bool },
}

/// The view of an `Action`.
pub enum ActionV {
    Keep(Seq<char>),
    Symlink { path: Seq<char>, source: Seq<char>, is_explicit: bool, is_no_op: bool },
    Delete { path: Seq<char>, is_no_op: bool },
}

impl View for Action {
    type V = ActionV;

    open spec fn view(&self) -> ActionV {
        match self {
            Action::Keep(p) => ActionV::Keep(p@),
            Action::Symlink { path, source, is_explicit, is_no_op } => ActionV::Symlink {
                path: path@,
                source: source@,
                is_explicit: *is_explicit,
                is_no_op: *is_no_op,
            },
            Action::Delete { path, is_no_op } => ActionV::Delete {
                path: path@,
                is_no_op: *is_no_op,
            },
        }
    }
}

/// The views of a list of actions.
pub open spec fn actions_view(s: Seq<Action>) -> Seq<ActionV> {
    s.map_values(|a: Action| a@)
}

/// Whether an action is pending: not a `Keep`, and, unless no-ops are
/// asked for, not a no-op.
pub open spec fn is_pending(a: ActionV, include_no_op: bool) -> bool {
    match a {
        ActionV::Keep(_) => false,
        ActionV::Symlink { is_no_op, .. } => include_no_op || !is_no_op,
        ActionV::Delete { is_no_op, .. } => include_no_op || !is_no_op,
    }
}

/// The pending actions, in order.
pub open spec fn pending_spec(s: Seq<ActionV>, include_no_op: bool) -> Seq<ActionV> {
    s.filter(|a: ActionV| is_pending(a, include_no_op))
}

/// Filters the action list down to the pending ones: `Keep` actions
/// fall away, and no-op actions fall away unless `include_no_op` is
/// set.
pub fn pending_actions(actions: &Vec<Action>, include_no_op: bool) -> (r: Vec<usize>)
    ensures
        actions_view(actions@).filter(|a: ActionV| is_pending(a, include_no_op)) == r@.map_values(
            |i: usize| actions@[i as int]@,
        ),
        forall|k: int| 0 <= k < r@.len() ==> (#[trigger] r@[k]) < actions@.len(),
{
    let n = actions.len();
    let mut r: Vec<usize> = Vec::new();
    let mut i: usize = 0;
    proof {
        assert(actions_view(actions@).take(0).filter(|a: ActionV| is_pending(a, include_no_op))
            =~= Seq::<ActionV>::empty());
        assert(r@.map_values(|k: usize| actions@[k as int]@) =~= Seq::<ActionV>::empty());
    }
    while i < n
        invariant
            0 <= i <= n,
            n == actions@.len(),
            forall|k: int| 0 <= k < r@.len() ==> (#[trigger] r@[k]) < i,
            actions_view(actions@).take(i as int).filter(
                |a: ActionV| is_pending(a, include_no_op),
            ) == r@.map_values(|k: usize| actions@[k as int]@),
        decreases n - i,
    {
        let p = match &actions[i] {
            Action::Keep(_) => false,
            Action::Symlink { is_no_op, .. } => include_no_op || !*is_no_op,
            Action::Delete { is_no_op, .. } => include_no_op || !*is_no_op,
        };
        proof {
            assert(p == is_pending(actions@[i as int]@, include_no_op));
            assert(actions_view(actions@).take(i + 1) =~= actions_view(actions@).take(
                i as int,
            ).push(actions@[i as int]@));
            crate::executor::lemma_filter_push(
                actions_view(actions@).take(i as int),
                actions@[i as int]@,
                include_no_op,
            );
        }
        if p {
            r.push(i);
            proof {
                assert(r@.map_values(|k: usize| actions@[k as int]@) =~= r@.drop_last().map_values(
                    |k: usize| actions@[k as int]@,
                ).push(actions@[i as int]@));
            }
        }
        i = i + 1;
    }
    proof {
        assert(actions_view(actions@).take(n as int) == actions_view(actions@));
    }
    r
}

/// One concrete step of executing the pending actions: replace a file
/// with a symlink to the resolved source, or delete a file. `rel_path`
/// is the path relative to the root, for display; `src_path` the
/// resolved symlink source.
#[derive(Debug, Clone, PartialEq, Eq)]
pub enum ExecStep {
    ReplaceWithSymlink { path: String, rel_path: String, src_path: String, is_no_op: bool },
    DeleteFile { path: String, rel_path: String, is_no_op: bool },
}

/// The view of an `ExecStep`.
pub enum ExecStepV {
    ReplaceWithSymlink {
        path: Seq<char>,
        rel_path: Seq<char>,
        src_path: Seq<char>,
        is_no_op: bool,
    },
    DeleteFile { path: Seq<char>, rel_path: Seq<char>, is_no_op: bool },
}

impl View for ExecStep {
    type V = ExecStepV;

    open spec fn view(&self) -> ExecStepV {
        match self {
            ExecStep::ReplaceWithSymlink { path, rel_path, src_path, is_no_op } =>
                ExecStepV::ReplaceWithSymlink {
                path: path@,
                rel_path: rel_path@,
                src_path: src_path@,
                is_no_op: *is_no_op,
            },
            ExecStep::DeleteFile { path, rel_path, is_no_op } => ExecStepV::DeleteFile {
                path: path@,
                rel_path: rel_path@,
                is_no_op: *is_no_op,
            },
        }
    }
}

/// The step planned for one pending action: the paths carry over, the
/// relative path is the root-relative form, and the symlink source is
/// the user's explicit source unchanged, or — for canonical absolute
/// implicit sources — the relative path from the target's parent.
pub open spec fn step_for(a: ActionV, root: Seq<char>, s: ExecStepV) -> bool {
    match a {
        ActionV::Keep(_) => false,
        ActionV::Symlink { path, source, is_explicit, is_no_op } => {
            &&& s matches ExecStepV::ReplaceWithSymlink {
                path: p2,
                rel_path,
                src_path,
                is_no_op: n2,
            } && p2 == path && n2 == is_no_op && normalize_path_spec(path, true, root) == Some(
                rel_path,
            ) && (is_explicit ==> src_path == source) && (match parent_spec(path) {
                Some(par) => (!is_explicit && spec_is_absolute(source) && spec_is_absolute(par)
                    && crate::fileutil::clean_path(source) && crate::fileutil::clean_path(par)
                    && crate::fileutil::no_dots(crate::fileutil::segments(source))
                    && crate::fileutil::no_dots(crate::fileutil::segments(par))) ==> src_path
                    == crate::fileutil::join_segs(
                    crate::fileutil::rel_diff(
                        crate::fileutil::segments(source),
                        crate::fileutil::segments(par),
                    ),
                ),
                None => true,
            })
        },
        ActionV::Delete { path, is_no_op } => {
            &&& s matches ExecStepV::DeleteFile { path: p2, rel_path, is_no_op: n2 } && p2 == path
                && n2 == is_no_op && normalize_path_spec(path, true, root) == Some(rel_path)
        },
    }
}

/// An action whose paths the planner can always resolve: the path lies
/// under the root (or is relative), and an implicit symlink source is a
/// canonical absolute path below a target with a canonical absolute
/// parent.
pub open spec fn resolvable_action(a: ActionV, root: Seq<char>) -> bool {
    match a {
        ActionV::Keep(_) => true,
        ActionV::Delete { path, .. } => normalize_path_spec(path, true, root) is Some,
        ActionV::Symlink { path, source, is_explicit, .. } => {
            &&& normalize_path_spec(path, true, root) is Some
            &&& (is_explicit || (match parent_spec(path) {
                Some(par) => spec_is_absolute(source) && spec_is_absolute(par)
                    && crate::fileutil::clean_path(source) && crate::fileutil::clean_path(par)
                    && crate::fileutil::no_dots(crate::fileutil::segments(source))
                    && crate::fileutil::no_dots(crate::fileutil::segments(par)),
                None => false,
            }))
        },
    }
}

/// Plans the execution of an action list: `Keep` actions are dropped;
/// in dry-run mode no-op actions are kept for display, otherwise they
/// are dropped too; each remaining action becomes one step with its
/// root-relative path and, for symlinks, its resolved source. Fails
/// only when a path cannot be made relative to the root or an implicit
/// source cannot be resolved; when every pending action is resolvable,
/// it succeeds.
pub fn execute(actions: &Vec<Action>, dry_run: bool, rootdir: &str) -> (r: Result<
    Vec<ExecStep>,
    AppError,
>)
    ensures
        match r {
            Ok(steps) => steps@.len() == pending_spec(actions_view(actions@), dry_run).len()
                && forall|k: int|
                0 <= k < steps@.len() ==> step_for(
                    pending_spec(actions_view(actions@), dry_run)[k],
                    rootdir@,
                    (#[trigger] steps@[k])@,
                ),
            Err(e) => e matches AppError::Fs(_) && !(forall|k: int|
                0 <= k < pending_spec(actions_view(actions@), dry_run).len()
                    ==> resolvable_action(
                    #[trigger] pending_spec(actions_view(actions@), dry_run)[k],
                    rootdir@,
                )),
        },
{
    let idxs = pending_actions(actions, dry_run);
    let ghost pend = pending_spec(actions_view(actions@), dry_run);
    proof {
        assert(pend.len() == idxs@.len());
    }
    let mut steps: Vec<ExecStep> = Vec::new();
    let n = idxs.len();
    let mut k: usize = 0;
    while k < n
        invariant
            0 <= k <= n,
            n == idxs@.len(),
            pend == pending_spec(actions_view(actions@), dry_run),
            pend == idxs@.map_values(|i: usize| actions@[i as int]@),
            forall|k2: int| 0 <= k2 < n ==> (#[trigger] idxs@[k2]) < actions@.len(),
            steps@.len() == k,
            forall|k2: int|
                0 <= k2 < k ==> step_for(pend[k2], rootdir@, (#[trigger] steps@[k2])@),
        decreases n - k,
    {
        let i = idxs[k];
        proof {
            assert(pend[k as int] == actions@[i as int]@);
        }
        match &actions[i] {
            Action::Keep(_) => {
                proof {
                    lemma_pending_all_pending(actions_view(actions@), dry_run, k as int);
                    assert(is_pending(pend[k as int], dry_run));
                    assert(false);
                }
                return Err(AppError::Fs(String::new()));
            },
            Action::Symlink { path, source, is_explicit, is_no_op } => {
                let rel = match normalize_path(path.as_str(), true, rootdir) {
                    Ok(p) => p,
                    Err(e) => {
                        proof {
                            assert(!resolvable_action(pend[k as int], rootdir@));
                        }
                        return Err(e);
                    },
                };
                let src = match normalize_symlink_src_path(
                    path.as_str(),
                    source.as_str(),
                    *is_explicit,
                ) {
                    Ok(p) => p,
                    Err(e) => {
                        proof {
                            assert(!resolvable_action(pend[k as int], rootdir@));
                        }
                        return Err(e);
                    },
                };
                steps.push(
                    ExecStep::ReplaceWithSymlink {
                        path: path.clone(),
                        rel_path: rel,
                        src_path: src,
                        is_no_op: *is_no_op,
                    },
                );
            },
            Action::Delete { path, is_no_op } => {
                let rel = match normalize_path(path.as_str(), true, rootdir) {
                    Ok(p) => p,
                    Err(e) => {
                        proof {
                            assert(!resolvable_action(pend[k as int], rootdir@));
                        }
                        return Err(e);
                    },
                };
                steps.push(
                    ExecStep::DeleteFile { path: path.clone(), rel_path: rel, is_no_op: *is_no_op },
                );
            },
        }
        k = k + 1;
    }
    Ok(steps)
}

/// Every element of the pending list is itself pending.
proof fn lemma_pending_all_pending(s: Seq<ActionV>, include_no_op: bool, k: int)
    requires
        0 <= k < pending_spec(s, include_no_op).len(),
    ensures
        is_pending(pending_spec(s, include_no_op)[k], include_no_op),
{
    reveal(Seq::filter);
    lemma_filter_members(s, include_no_op, k);
}

proof fn lemma_filter_members(s: Seq<ActionV>, include_no_op: bool, k: int)
    requires
        0 <= k < s.filter(|a: ActionV| is_pending(a, include_no_op)).len(),
    ensures
        is_pending(s.filter(|a: ActionV| is_pending(a, include_no_op))[k], include_no_op),
    decreases s.len(),
{
    reveal(Seq::filter);
    if s.len() > 0 {
        let f = s.drop_last().filter(|a: ActionV| is_pending(a, include_no_op));
        if k < f.len() {
            lemma_filter_members(s.drop_last(), include_no_op, k);
        }
    }
}

/// The prefix of a dry-run display line.
pub open spec fn dryrun_prefix(is_no_op: bool) -> Seq<char> {
    if is_no_op {
        "[DRY RUN][NO-OP]"@
    } else {
        "[DRY RUN]"@
    }
}

/// The dry-run display line of a step.
pub open spec fn dryrun_text(s: ExecStepV) -> Seq<char> {
    match s {
        ExecStepV::ReplaceWithSymlink { rel_path, src_path, is_no_op, .. } => dryrun_prefix(
            is_no_op,
        ) + " File to be replaced with symlink: "@ + rel_path + " -> "@ + src_path,
        ExecStepV::DeleteFile { rel_path, is_no_op, .. } => dryrun_prefix(is_no_op)
            + " File to be deleted: "@ + rel_path,
    }
}

/// Renders the dry-run display line for a step.
pub fn dry_run_line(step: &ExecStep) -> (r: String)
    ensures
        r@ == dryrun_text(step@),
{
    match step {
        ExecStep::ReplaceWithSymlink { path: _, rel_path, src_path, is_no_op } => {
            let prefix = if *is_no_op {
                "[DRY RUN][NO-OP]"
            } else {
                "[DRY RUN]"
            };
            let r = String::from_str(prefix).concat(" File to be replaced with symlink: ").concat(
                rel_path.as_str(),
            ).concat(" -> ").concat(src_path.as_str());
            proof {
                assert(r@ =~= dryrun_prefix(*is_no_op) + " File to be replaced with symlink: "@
                    + rel_path@ + " -> "@ + src_path@);
            }
            r
        },
        ExecStep::DeleteFile { path: _, rel_path, is_no_op } => {
            let prefix = if *is_no_op {
                "[DRY RUN][NO-OP]"
            } else {
                "[DRY RUN]"
            };
            let r = String::from_str(prefix).concat(" File to be deleted: ").concat(
                rel_path.as_str(),
            );
            proof {
                assert(r@ =~= dryrun_prefix(*is_no_op) + " File to be deleted: "@ + rel_path@);
            }
            r
        },
    }
}

/// Filtering distributes over appending one element.
pub proof fn lemma_filter_push(s: Seq<ActionV>, a: ActionV, include_no_op: bool)
    ensures
        s.push(a).filter(|x: ActionV| is_pending(x, include_no_op)) == if is_pending(
            a,
            include_no_op,
        ) {
            s.filter(|x: ActionV| is_pending(x, include_no_op)).push(a)
        } else {
            s.filter(|x: ActionV| is_pending(x, include_no_op))
        },
{
    reveal(Seq::filter);
    assert(s.push(a).drop_last() =~= s);
    assert(s.push(a).last() == a);
}

} // verus!
