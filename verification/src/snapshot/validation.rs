//! Snapshot validation: checks an edited snapshot against the observed
//! state of the filesystem and derives the actions to perform.
//!
//! Validation is pure: every filesystem fact it consults comes from the
//! `FsView` handed in, so the result is a function of the snapshot and
//! that view alone.

use vstd::prelude::*;
use vstd::string::*;
use crate::executor::{actions_view, is_pending, pending_spec, Action, ActionV};
use crate::fileutil::{
    join_spec, parent_of, parent_spec, path_join, spec_is_absolute, is_absolute, segments,
    within_root_spec, within_rootdir,
};
use crate::fsview::{stat_spec, FsEntryV, FsView, PathState, PathStateV};
use crate::hash::Checksum;
use crate::snapshot::{
    find_keeper, fps_view, is_keep, lemma_min_keep_path, min_keep_path, FileOp, FileOpV,
    FilePath, FilePathV, Group, GroupV, Snapshot,
};
use crate::strutil::{dec_rep, seq_le, u64_to_string};

verus! {

/// Validation errors.
///
/// `RootDir` marks a missing root directory, `OpNotPossible` an
/// operation the filesystem state forbids, `OpNotAllowed` one the
/// snapshot semantics forbid, `CorruptSnapshot` a structural fault,
/// `ChecksumMismatch` a file whose content hash differs from its
/// group's checksum, and `Io` an unreadable filesystem state.
#[derive(Debug, Clone, PartialEq, Eq)]
pub enum Error {
    RootDir(String),
    OpNotPossible(String),
    OpNotAllowed(String),
    CorruptSnapshot(String),
    ChecksumMismatch { path: String, actual: String, expected: String },
    Io(String),
}

/// The abstract form of a validation error: the variant, and for a
/// checksum mismatch the path and the two fingerprint values.
pub enum ErrV {
    RootDir,
    OpNotPossible,
    OpNotAllowed,
    CorruptSnapshot,
    ChecksumMismatch { path: Seq<char>, actual: u64, expected: u64 },
    Io,
}

/// Whether a concrete error carries the abstract one: same variant,
/// and for a checksum mismatch the same path and the decimal renderings
/// of the same values.
pub open spec fn error_matches(e: Error, ev: ErrV) -> bool {
    match ev {
        ErrV::RootDir => e is RootDir,
        ErrV::OpNotPossible => e is OpNotPossible,
        ErrV::OpNotAllowed => e is OpNotAllowed,
        ErrV::CorruptSnapshot => e is CorruptSnapshot,
        ErrV::ChecksumMismatch { path, actual, expected } => e matches Error::ChecksumMismatch {
            path: p,
            actual: a,
            expected: x,
        } && p@ == path && a@ == dec_rep(actual as nat) && x@ == dec_rep(expected as nat),
        ErrV::Io => e is Io,
    }
}

/// Component-wise path equality: same absoluteness and the same
/// segments.
pub open spec fn path_eq_spec(a: Seq<char>, b: Seq<char>) -> bool {
    spec_is_absolute(a) == spec_is_absolute(b) && segments(a) == segments(b)
}

/// Tests component-wise path equality.
pub fn path_eq(a: &str, b: &str) -> (r: bool)
    ensures
        r == path_eq_spec(a@, b@),
{
    if is_absolute(a) != is_absolute(b) {
        return false;
    }
    let sa = crate::fileutil::segments_of(a);
    let sb = crate::fileutil::segments_of(b);
    if sa.len() != sb.len() {
        proof {
            assert(crate::fileutil::seg_views(sa@).len() != crate::fileutil::seg_views(sb@).len());
        }
        return false;
    }
    let mut i: usize = 0;
    while i < sa.len()
        invariant
            0 <= i <= sa@.len(),
            sa@.len() == sb@.len(),
            crate::fileutil::seg_views(sa@) == segments(a@),
            crate::fileutil::seg_views(sb@) == segments(b@),
            forall|j: int|
                0 <= j < i ==> crate::fileutil::seg_views(sa@)[j] == crate::fileutil::seg_views(
                    sb@,
                )[j],
        decreases sa@.len() - i,
    {
        if !(sa[i] == sb[i]) {
            proof {
                assert(crate::fileutil::seg_views(sa@)[i as int] != crate::fileutil::seg_views(
                    sb@,
                )[i as int]);
            }
            return false;
        }
        i = i + 1;
    }
    proof {
        assert(segments(a@) =~= segments(b@));
    }
    true
}

/// The outcome of comparing a path's recorded fingerprint against the
/// group checksum: unreadable, matching, or mismatching.
pub open spec fn check_sum_spec(path: Seq<char>, st: PathStateV, expected: u64) -> Option<ErrV> {
    match st.checksum {
        None => Some(ErrV::Io),
        Some(a) => if a == expected {
            None
        } else {
            Some(ErrV::ChecksumMismatch { path, actual: a, expected })
        },
    }
}

/// Validation of a `keep` entry: the path must be a regular file (not a
/// symlink, not missing) whose fingerprint matches the group checksum.
pub open spec fn validate_keep_spec(
    path: Seq<char>,
    expected: u64,
    view: Seq<FsEntryV>,
) -> Result<ActionV, ErrV> {
    let st = stat_spec(view, path);
    if st.is_symlink {
        Err(ErrV::OpNotPossible)
    } else if st.is_file {
        match check_sum_spec(path, st, expected) {
            Some(e) => Err(e),
            None => Ok(ActionV::Keep(path)),
        }
    } else {
        Err(ErrV::OpNotPossible)
    }
}

/// Verification of an explicit symlink source: its content fingerprint
/// (resolving a relative source against the target's parent) must be
/// readable; the result says whether it equals the group checksum.
pub open spec fn verify_src_hash_spec(
    source: Seq<char>,
    target: Seq<char>,
    expected: u64,
    view: Seq<FsEntryV>,
) -> Result<bool, ErrV> {
    if spec_is_absolute(source) {
        match stat_spec(view, source).checksum {
            None => Err(ErrV::Io),
            Some(a) => Ok(a == expected),
        }
    } else {
        match parent_spec(target) {
            None => Err(ErrV::Io),
            Some(par) => {
                let st = stat_spec(view, join_spec(par, source));
                if st.canonical is None {
                    Err(ErrV::Io)
                } else {
                    match st.checksum {
                        None => Err(ErrV::Io),
                        Some(a) => Ok(a == expected),
                    }
                }
            },
        }
    }
}

/// Comparison of an intended symlink source against the link already on
/// disk: literal when the intended source is explicit or both are
/// absolute; through resolution of the stored link against the target's
/// parent when the intended source is absolute and the stored one
/// relative; a relative implicit source is not allowed.
pub open spec fn verify_src_path_spec(
    intended: Seq<char>,
    actual: Seq<char>,
    target: Seq<char>,
    is_explicit: bool,
    view: Seq<FsEntryV>,
) -> Result<bool, ErrV> {
    if is_explicit || (spec_is_absolute(intended) && spec_is_absolute(actual)) {
        Ok(path_eq_spec(intended, actual))
    } else if spec_is_absolute(intended) && !spec_is_absolute(actual) {
        match parent_spec(target) {
            None => Err(ErrV::Io),
            Some(par) => match stat_spec(view, join_spec(par, actual)).canonical {
                None => Err(ErrV::Io),
                Some(p) => Ok(path_eq_spec(intended, p)),
            },
        }
    } else {
        Err(ErrV::OpNotAllowed)
    }
}

/// Validation of a `symlink` entry.
pub open spec fn validate_symlink_spec(
    path: Seq<char>,
    source: Option<Seq<char>>,
    keeper: Option<Seq<char>>,
    expected: u64,
    view: Seq<FsEntryV>,
) -> Result<ActionV, ErrV> {
    let st = stat_spec(view, path);
    if !st.exists {
        Err(ErrV::OpNotPossible)
    } else {
        match check_sum_spec(path, st, expected) {
            Some(e) => Err(e),
            None => {
                let hash_ok = match source {
                    Some(src) => verify_src_hash_spec(src, path, expected, view),
                    None => Ok(true),
                };
                match hash_ok {
                    Err(e) => Err(e),
                    Ok(false) => Err(ErrV::OpNotPossible),
                    Ok(true) => {
                        let intended = match source {
                            Some(src) => Some(src),
                            None => keeper,
                        };
                        match intended {
                            None => Err(ErrV::OpNotAllowed),
                            Some(isrc) => {
                                if stat_spec(view, isrc).is_symlink {
                                    Err(ErrV::OpNotAllowed)
                                } else {
                                    let is_explicit = source is Some;
                                    if st.is_symlink {
                                        match st.link_target {
                                            Some(actual) => match verify_src_path_spec(
                                                isrc,
                                                actual,
                                                path,
                                                is_explicit,
                                                view,
                                            ) {
                                                Err(e) => Err(e),
                                                Ok(true) => Ok(
                                                    ActionV::Symlink {
                                                        path,
                                                        source: isrc,
                                                        is_explicit,
                                                        is_no_op: true,
                                                    },
                                                ),
                                                Ok(false) => Err(ErrV::OpNotAllowed),
                                            },
                                            None => Ok(
                                                ActionV::Symlink {
                                                    path,
                                                    source: isrc,
                                                    is_explicit,
                                                    is_no_op: false,
                                                },
                                            ),
                                        }
                                    } else if st.is_file {
                                        Ok(
                                            ActionV::Symlink {
                                                path,
                                                source: isrc,
                                                is_explicit,
                                                is_no_op: false,
                                            },
                                        )
                                    } else {
                                        Err(ErrV::OpNotPossible)
                                    }
                                }
                            },
                        }
                    },
                }
            },
        }
    }
}

/// Validation of a `delete` entry: a path that resolves and matches the
/// checksum is deleted; a missing path is a no-op; an unresolvable path
/// is refused.
pub open spec fn validate_delete_spec(
    path: Seq<char>,
    expected: u64,
    view: Seq<FsEntryV>,
) -> Result<ActionV, ErrV> {
    let st = stat_spec(view, path);
    if st.exists {
        match st.canonical {
            Some(_) => match check_sum_spec(path, st, expected) {
                Some(e) => Err(e),
                None => Ok(ActionV::Delete { path, is_no_op: false }),
            },
            None => Err(ErrV::OpNotAllowed),
        }
    } else {
        Ok(ActionV::Delete { path, is_no_op: true })
    }
}

/// Validation of one entry: the path must lie under the root, then the
/// rule for its operation applies.
pub open spec fn validate_path_spec(
    rootdir: Seq<char>,
    expected: u64,
    fp: FilePathV,
    keeper: Option<Seq<char>>,
    view: Seq<FsEntryV>,
) -> Result<ActionV, ErrV> {
    if !within_root_spec(rootdir, fp.path) {
        Err(ErrV::CorruptSnapshot)
    } else {
        match fp.op {
            FileOpV::Keep => validate_keep_spec(fp.path, expected, view),
            FileOpV::Symlink { source } => validate_symlink_spec(
                fp.path,
                source,
                keeper,
                expected,
                view,
            ),
            FileOpV::Delete => validate_delete_spec(fp.path, expected, view),
        }
    }
}

/// Whether every entry of the group is marked `delete`.
pub open spec fn all_deletes(files: Seq<FilePathV>) -> bool {
    forall|j: int| 0 <= j < files.len() ==> (#[trigger] files[j]).op is Delete
}

/// The structural fault of a group, if any: fewer than two entries is
/// corrupt; no keeper is refused, unless the whole group is marked
/// `delete` and full deletion is allowed.
pub open spec fn group_err_spec(g: GroupV, allow_full_deletion: bool) -> Option<ErrV> {
    if g.files.len() <= 1 {
        Some(ErrV::CorruptSnapshot)
    } else if exists|j: int| 0 <= j < g.files.len() && is_keep(#[trigger] g.files[j]) {
        None
    } else if allow_full_deletion && all_deletes(g.files) {
        None
    } else {
        Some(ErrV::OpNotAllowed)
    }
}

/// Validation of the entries of one group, in order, stopping at the
/// first fault.
pub open spec fn validate_entries_spec(
    files: Seq<FilePathV>,
    rootdir: Seq<char>,
    expected: u64,
    keeper: Option<Seq<char>>,
    view: Seq<FsEntryV>,
) -> Result<Seq<ActionV>, ErrV>
    decreases files.len(),
{
    if files.len() == 0 {
        Ok(Seq::empty())
    } else {
        match validate_path_spec(rootdir, expected, files[0], keeper, view) {
            Err(e) => Err(e),
            Ok(a) => match validate_entries_spec(
                files.drop_first(),
                rootdir,
                expected,
                keeper,
                view,
            ) {
                Err(e) => Err(e),
                Ok(more) => Ok(seq![a] + more),
            },
        }
    }
}

/// Validation of the groups, in order, stopping at the first fault.
pub open spec fn validate_groups_spec(
    groups: Seq<GroupV>,
    rootdir: Seq<char>,
    allow_full_deletion: bool,
    view: Seq<FsEntryV>,
) -> Result<Seq<ActionV>, ErrV>
    decreases groups.len(),
{
    if groups.len() == 0 {
        Ok(Seq::empty())
    } else {
        let g = groups[0];
        match group_err_spec(g, allow_full_deletion) {
            Some(e) => Err(e),
            None => {
                let keeper = min_keep_path(g.files);
                match validate_entries_spec(g.files, rootdir, g.checksum, keeper, view) {
                    Err(e) => Err(e),
                    Ok(acts) => match validate_groups_spec(
                        groups.drop_first(),
                        rootdir,
                        allow_full_deletion,
                        view,
                    ) {
                        Err(e) => Err(e),
                        Ok(more) => Ok(acts + more),
                    },
                }
            },
        }
    }
}

/// The whole validation: the root must exist, then every group is
/// checked and its actions collected in order.
pub open spec fn validate_spec(
    snap: crate::snapshot::SnapshotV,
    allow_full_deletion: bool,
    view: Seq<FsEntryV>,
) -> Result<Seq<ActionV>, ErrV> {
    if !stat_spec(view, snap.rootdir).exists {
        Err(ErrV::RootDir)
    } else {
        validate_groups_spec(snap.duplicates, snap.rootdir, allow_full_deletion, view)
    }
}

/// An entry the validator accepts: under the root, and in the state
/// its operation demands, with a matching fingerprint on record.
pub open spec fn entry_consistent(
    fp: FilePathV,
    root: Seq<char>,
    c: u64,
    keeper: Option<Seq<char>>,
    view: Seq<FsEntryV>,
) -> bool {
    let st = stat_spec(view, fp.path);
    &&& within_root_spec(root, fp.path)
    &&& match fp.op {
        FileOpV::Keep => !st.is_symlink && st.is_file && st.checksum == Some(c),
        FileOpV::Delete => st.exists ==> (st.canonical is Some && st.checksum == Some(c)),
        FileOpV::Symlink { source } => {
            &&& st.exists
            &&& st.checksum == Some(c)
            &&& match source {
                Some(src) => verify_src_hash_spec(src, fp.path, c, view) == Ok::<bool, ErrV>(
                    true,
                ),
                None => keeper is Some,
            }
            &&& match (match source {
                Some(src) => Some(src),
                None => keeper,
            }) {
                Some(isrc) => {
                    &&& !stat_spec(view, isrc).is_symlink
                    &&& (st.is_symlink ==> match st.link_target {
                        Some(actual) => verify_src_path_spec(
                            isrc,
                            actual,
                            fp.path,
                            source is Some,
                            view,
                        ) == Ok::<bool, ErrV>(true),
                        None => true,
                    })
                    &&& (!st.is_symlink ==> st.is_file)
                },
                None => false,
            }
        },
    }
}

/// An entry whose intended effect is already present on disk: a
/// `symlink` entry that is the intended link, a `delete` entry whose
/// path is gone.
pub open spec fn entry_converged(fp: FilePathV, view: Seq<FsEntryV>) -> bool {
    let st = stat_spec(view, fp.path);
    match fp.op {
        FileOpV::Keep => true,
        FileOpV::Delete => !st.exists,
        FileOpV::Symlink { .. } => st.is_symlink && st.link_target is Some,
    }
}

/// A group the validator accepts in full.
pub open spec fn group_consistent(
    g: GroupV,
    root: Seq<char>,
    allow_full_deletion: bool,
    view: Seq<FsEntryV>,
) -> bool {
    &&& group_err_spec(g, allow_full_deletion) is None
    &&& forall|k: int|
        0 <= k < g.files.len() ==> entry_consistent(
            #[trigger] g.files[k],
            root,
            g.checksum,
            min_keep_path(g.files),
            view,
        )
}

/// A snapshot the validator accepts in full: the root exists and every
/// group is consistent with the observed filesystem.
pub open spec fn snapshot_consistent(
    snap: crate::snapshot::SnapshotV,
    allow_full_deletion: bool,
    view: Seq<FsEntryV>,
) -> bool {
    &&& stat_spec(view, snap.rootdir).exists
    &&& forall|i: int|
        0 <= i < snap.duplicates.len() ==> group_consistent(
            #[trigger] snap.duplicates[i],
            snap.rootdir,
            allow_full_deletion,
            view,
        )
}

proof fn lemma_entries_ok(
    files: Seq<FilePathV>,
    root: Seq<char>,
    c: u64,
    keeper: Option<Seq<char>>,
    view: Seq<FsEntryV>,
)
    requires
        forall|k: int|
            0 <= k < files.len() ==> entry_consistent(#[trigger] files[k], root, c, keeper, view),
    ensures
        validate_entries_spec(files, root, c, keeper, view) is Ok,
        (forall|k: int| 0 <= k < files.len() ==> entry_converged(#[trigger] files[k], view))
            ==> (forall|m: int|
            0 <= m < validate_entries_spec(files, root, c, keeper, view)->Ok_0.len()
                ==> !is_pending(
                #[trigger] validate_entries_spec(files, root, c, keeper, view)->Ok_0[m],
                false,
            )),
    decreases files.len(),
{
    if files.len() > 0 {
        let f0 = files[0];
        assert(entry_consistent(f0, root, c, keeper, view));
        assert(validate_path_spec(root, c, f0, keeper, view) is Ok);
        assert(forall|k: int|
            0 <= k < files.drop_first().len() ==> files.drop_first()[k] == files[k + 1]);
        lemma_entries_ok(files.drop_first(), root, c, keeper, view);
        let a0 = validate_path_spec(root, c, f0, keeper, view)->Ok_0;
        let rest = validate_entries_spec(files.drop_first(), root, c, keeper, view)->Ok_0;
        assert(validate_entries_spec(files, root, c, keeper, view) == Ok::<Seq<ActionV>, ErrV>(
            seq![a0] + rest,
        ));
        if forall|k: int| 0 <= k < files.len() ==> entry_converged(#[trigger] files[k], view) {
            assert(entry_converged(f0, view));
            assert(!is_pending(a0, false));
            assert(forall|k: int|
                0 <= k < files.drop_first().len() ==> entry_converged(
                    #[trigger] files.drop_first()[k],
                    view,
                ));
            assert forall|m: int| 0 <= m < (seq![a0] + rest).len() implies !is_pending(
                #[trigger] (seq![a0] + rest)[m],
                false,
            ) by {
                if m > 0 {
                    assert((seq![a0] + rest)[m] == rest[m - 1]);
                }
            }
        }
    }
}

proof fn lemma_groups_ok(
    groups: Seq<GroupV>,
    root: Seq<char>,
    allow_full_deletion: bool,
    view: Seq<FsEntryV>,
)
    requires
        forall|i: int|
            0 <= i < groups.len() ==> group_consistent(
                #[trigger] groups[i],
                root,
                allow_full_deletion,
                view,
            ),
    ensures
        validate_groups_spec(groups, root, allow_full_deletion, view) is Ok,
        (forall|i: int, k: int|
            0 <= i < groups.len() && 0 <= k < groups[i].files.len() ==> entry_converged(
                #[trigger] groups[i].files[k],
                view,
            )) ==> (forall|m: int|
            0 <= m < validate_groups_spec(groups, root, allow_full_deletion, view)->Ok_0.len()
                ==> !is_pending(
                #[trigger] validate_groups_spec(groups, root, allow_full_deletion, view)->Ok_0[m],
                false,
            )),
    decreases groups.len(),
{
    if groups.len() > 0 {
        let g = groups[0];
        assert(group_consistent(g, root, allow_full_deletion, view));
        lemma_entries_ok(g.files, root, g.checksum, min_keep_path(g.files), view);
        assert(forall|i: int|
            0 <= i < groups.drop_first().len() ==> groups.drop_first()[i] == groups[i + 1]);
        lemma_groups_ok(groups.drop_first(), root, allow_full_deletion, view);
        let acts = validate_entries_spec(g.files, root, g.checksum, min_keep_path(g.files), view)
            ->Ok_0;
        let more = validate_groups_spec(groups.drop_first(), root, allow_full_deletion, view)
            ->Ok_0;
        assert(validate_groups_spec(groups, root, allow_full_deletion, view) == Ok::<
            Seq<ActionV>,
            ErrV,
        >(acts + more));
        if forall|i: int, k: int|
            0 <= i < groups.len() && 0 <= k < groups[i].files.len() ==> entry_converged(
                #[trigger] groups[i].files[k],
                view,
            ) {
            assert(forall|k: int|
                0 <= k < g.files.len() ==> entry_converged(#[trigger] g.files[k], view));
            assert(forall|i: int, k: int|
                0 <= i < groups.drop_first().len() && 0 <= k < groups.drop_first()[i].files.len()
                    ==> entry_converged(#[trigger] groups.drop_first()[i].files[k], view));
            assert forall|m: int| 0 <= m < (acts + more).len() implies !is_pending(
                #[trigger] (acts + more)[m],
                false,
            ) by {
                if m < acts.len() {
                    assert((acts + more)[m] == acts[m]);
                } else {
                    assert((acts + more)[m] == more[m - acts.len()]);
                }
            }
        }
    }
}

/// A consistent snapshot validates: on a filesystem in the state the
/// snapshot describes, validation returns an action list rather than
/// an error. Validation is a function of the snapshot and the observed
/// view alone, so a second validation against the same view returns
/// the same list.
pub proof fn lemma_consistent_snapshot_validates(
    snap: crate::snapshot::SnapshotV,
    allow_full_deletion: bool,
    view: Seq<FsEntryV>,
)
    requires
        snapshot_consistent(snap, allow_full_deletion, view),
    ensures
        validate_spec(snap, allow_full_deletion, view) is Ok,
{
    lemma_groups_ok(snap.duplicates, snap.rootdir, allow_full_deletion, view);
}

/// Convergence: when every entry's intended effect is already present
/// on disk — every `symlink` entry already the intended link, every
/// `delete` entry already gone — validation succeeds and its action
/// list has no pending work: every non-`Keep` action is a no-op.
pub proof fn lemma_reapply_converges(
    snap: crate::snapshot::SnapshotV,
    allow_full_deletion: bool,
    view: Seq<FsEntryV>,
)
    requires
        snapshot_consistent(snap, allow_full_deletion, view),
        forall|i: int, k: int|
            0 <= i < snap.duplicates.len() && 0 <= k < snap.duplicates[i].files.len()
                ==> entry_converged(#[trigger] snap.duplicates[i].files[k], view),
    ensures
        validate_spec(snap, allow_full_deletion, view) is Ok,
        pending_spec(validate_spec(snap, allow_full_deletion, view)->Ok_0, false) == Seq::<
            ActionV,
        >::empty(),
{
    lemma_groups_ok(snap.duplicates, snap.rootdir, allow_full_deletion, view);
    let acts = validate_spec(snap, allow_full_deletion, view)->Ok_0;
    assert(forall|m: int| 0 <= m < acts.len() ==> !is_pending(#[trigger] acts[m], false));
    lemma_filter_none(acts);
}

proof fn lemma_filter_none(acts: Seq<ActionV>)
    requires
        forall|m: int| 0 <= m < acts.len() ==> !is_pending(#[trigger] acts[m], false),
    ensures
        pending_spec(acts, false) == Seq::<ActionV>::empty(),
    decreases acts.len(),
{
    reveal(Seq::filter);
    if acts.len() > 0 {
        assert(forall|m: int|
            0 <= m < acts.drop_last().len() ==> acts.drop_last()[m] == acts[m]);
        lemma_filter_none(acts.drop_last());
        assert(!is_pending(acts.last(), false));
    }
}

proof fn lemma_entries_checksums(
    files: Seq<FilePathV>,
    root: Seq<char>,
    c: u64,
    keeper: Option<Seq<char>>,
    view: Seq<FsEntryV>,
    k: int,
)
    requires
        validate_entries_spec(files, root, c, keeper, view) is Ok,
        0 <= k < files.len(),
        !(files[k].op is Delete),
    ensures
        stat_spec(view, files[k].path).checksum == Some(c),
    decreases files.len(),
{
    if k == 0 {
        assert(validate_path_spec(root, c, files[0], keeper, view) is Ok);
    } else {
        assert(files.drop_first()[k - 1] == files[k]);
        lemma_entries_checksums(files.drop_first(), root, c, keeper, view, k - 1);
    }
}

/// A changed file makes validation fail: validation succeeds only when
/// every `keep` and `symlink` entry's recorded fingerprint equals its
/// group's checksum, so a path whose content hash differs from the
/// group checksum in the observed view rules out success.
pub proof fn lemma_changed_content_fails(
    snap: crate::snapshot::SnapshotV,
    allow_full_deletion: bool,
    view: Seq<FsEntryV>,
    i: int,
    k: int,
)
    requires
        0 <= i < snap.duplicates.len(),
        0 <= k < snap.duplicates[i].files.len(),
        !(snap.duplicates[i].files[k].op is Delete),
        stat_spec(view, snap.duplicates[i].files[k].path).checksum != Some(
            snap.duplicates[i].checksum,
        ),
    ensures
        !(validate_spec(snap, allow_full_deletion, view) is Ok),
{
    if validate_spec(snap, allow_full_deletion, view) is Ok {
        lemma_groups_checksums(snap.duplicates, snap.rootdir, allow_full_deletion, view, i, k);
    }
}

proof fn lemma_groups_checksums(
    groups: Seq<GroupV>,
    root: Seq<char>,
    allow_full_deletion: bool,
    view: Seq<FsEntryV>,
    i: int,
    k: int,
)
    requires
        validate_groups_spec(groups, root, allow_full_deletion, view) is Ok,
        0 <= i < groups.len(),
        0 <= k < groups[i].files.len(),
        !(groups[i].files[k].op is Delete),
    ensures
        stat_spec(view, groups[i].files[k].path).checksum == Some(groups[i].checksum),
    decreases i,
{
    if i == 0 {
        let g = groups[0];
        assert(validate_entries_spec(g.files, root, g.checksum, min_keep_path(g.files), view)
            is Ok);
        lemma_entries_checksums(g.files, root, g.checksum, min_keep_path(g.files), view, k);
    } else {
        assert(groups.drop_first()[i - 1] == groups[i]);
        lemma_groups_checksums(groups.drop_first(), root, allow_full_deletion, view, i - 1, k);
    }
}

/// Checks that the root directory exists in the observed view.
pub fn validate_rootdir(path: &str, view: &FsView) -> (r: Result<(), Error>)
    ensures
        match r {
            Ok(()) => stat_spec(view@, path@).exists,
            Err(e) => !stat_spec(view@, path@).exists && e is RootDir,
        },
{
    let st = view.stat(path);
    if st.exists {
        Ok(())
    } else {
        Err(Error::RootDir(String::from_str("The rootdir doesn't exist: ").concat(path)))
    }
}

fn validate_checksum(path: &str, st: &PathState, expected: &Checksum) -> (r: Result<(), Error>)
    ensures
        match r {
            Ok(()) => check_sum_spec(path@, st@, expected.spec_value()) is None,
            Err(e) => check_sum_spec(path@, st@, expected.spec_value()) matches Some(ev)
                && error_matches(e, ev),
        },
{
    match st.checksum {
        None => Err(Error::Io(String::from_str("Couldn't read file: ").concat(path))),
        Some(a) => {
            if a == expected.value() {
                Ok(())
            } else {
                Err(
                    Error::ChecksumMismatch {
                        path: String::from_str(path),
                        actual: u64_to_string(a),
                        expected: u64_to_string(expected.value()),
                    },
                )
            }
        },
    }
}

fn validate_path_to_keep(path: &str, expected: &Checksum, view: &FsView) -> (r: Result<
    Action,
    Error,
>)
    ensures
        match r {
            Ok(a) => validate_keep_spec(path@, expected.spec_value(), view@) == Ok::<
                ActionV,
                ErrV,
            >(a@),
            Err(e) => validate_keep_spec(path@, expected.spec_value(), view@) matches Err(ev)
                && error_matches(e, ev),
        },
{
    let st = view.stat(path);
    if st.is_symlink {
        Err(
            Error::OpNotPossible(
                String::from_str("Operation 'keep' not possible on a symlink: ").concat(path),
            ),
        )
    } else if st.is_file {
        match validate_checksum(path, &st, expected) {
            Ok(()) => Ok(Action::Keep(String::from_str(path))),
            Err(e) => Err(e),
        }
    } else {
        Err(
            Error::OpNotPossible(
                String::from_str("Operation 'keep' not possible on non-existing path: ").concat(
                    path,
                ),
            ),
        )
    }
}

/// Verifies the fingerprint of a symlink source against the group
/// checksum; a relative source resolves against the target's parent.
pub fn verify_symlink_source_hash(
    source: &str,
    target: &str,
    target_hash: &Checksum,
    view: &FsView,
) -> (r: Result<bool, Error>)
    ensures
        match r {
            Ok(b) => verify_src_hash_spec(source@, target@, target_hash.spec_value(), view@)
                == Ok::<bool, ErrV>(b),
            Err(e) => verify_src_hash_spec(source@, target@, target_hash.spec_value(), view@)
                matches Err(ev) && error_matches(e, ev),
        },
{
    if is_absolute(source) {
        let st = view.stat(source);
        match st.checksum {
            None => Err(Error::Io(String::from_str("Couldn't read file: ").concat(source))),
            Some(a) => Ok(a == target_hash.value()),
        }
    } else {
        match parent_of(target) {
            None => Err(
                Error::Io(String::from_str("Couldn't resolve source path: ").concat(source)),
            ),
            Some(par) => {
                let joined = path_join(par.as_str(), source);
                let st = view.stat(joined.as_str());
                match &st.canonical {
                    None => Err(
                        Error::Io(
                            String::from_str("Couldn't resolve source path: ").concat(source),
                        ),
                    ),
                    Some(_) => match st.checksum {
                        None => Err(
                            Error::Io(String::from_str("Couldn't read file: ").concat(source)),
                        ),
                        Some(a) => Ok(a == target_hash.value()),
                    },
                }
            },
        }
    }
}

/// Verifies that the symlink already on disk points at the intended
/// source.
pub fn verify_symlink_source_path(
    intended_source: &str,
    actual_source: &str,
    target: &str,
    is_explicit: bool,
    view: &FsView,
) -> (r: Result<bool, Error>)
    ensures
        match r {
            Ok(b) => verify_src_path_spec(
                intended_source@,
                actual_source@,
                target@,
                is_explicit,
                view@,
            ) == Ok::<bool, ErrV>(b),
            Err(e) => verify_src_path_spec(
                intended_source@,
                actual_source@,
                target@,
                is_explicit,
                view@,
            ) matches Err(ev) && error_matches(e, ev),
        },
{
    let ia = is_absolute(intended_source);
    let aa = is_absolute(actual_source);
    if is_explicit || (ia && aa) {
        Ok(path_eq(intended_source, actual_source))
    } else if ia && !aa {
        match parent_of(target) {
            None => Err(
                Error::Io(
                    String::from_str("Couldn't resolve link target: ").concat(actual_source),
                ),
            ),
            Some(par) => {
                let joined = path_join(par.as_str(), actual_source);
                let st = view.stat(joined.as_str());
                match &st.canonical {
                    None => Err(
                        Error::Io(
                            String::from_str("Couldn't resolve link target: ").concat(
                                actual_source,
                            ),
                        ),
                    ),
                    Some(p) => Ok(path_eq(intended_source, p.as_str())),
                }
            },
        }
    } else {
        Err(
            Error::OpNotAllowed(
                String::from_str("Implicit intended source path cannot be relative"),
            ),
        )
    }
}

fn validate_path_to_symlink(
    path: &str,
    source: Option<&String>,
    keeper: Option<&String>,
    expected: &Checksum,
    view: &FsView,
) -> (r: Result<Action, Error>)
    ensures
        match r {
            Ok(a) => validate_symlink_spec(
                path@,
                match source {
                    Some(s) => Some(s@),
                    None => None,
                },
                match keeper {
                    Some(k) => Some(k@),
                    None => None,
                },
                expected.spec_value(),
                view@,
            ) == Ok::<ActionV, ErrV>(a@),
            Err(e) => validate_symlink_spec(
                path@,
                match source {
                    Some(s) => Some(s@),
                    None => None,
                },
                match keeper {
                    Some(k) => Some(k@),
                    None => None,
                },
                expected.spec_value(),
                view@,
            ) matches Err(ev) && error_matches(e, ev),
        },
{
    let st = view.stat(path);
    if !st.exists {
        return Err(
            Error::OpNotPossible(
                String::from_str("Operation 'symlink' not possible for non-existing path: ")
                    .concat(path),
            ),
        );
    }
    match validate_checksum(path, &st, expected) {
        Ok(()) => {},
        Err(e) => {
            return Err(e);
        },
    }
    match source {
        Some(src) => {
            match verify_symlink_source_hash(src.as_str(), path, expected, view) {
                Ok(true) => {},
                Ok(false) => {
                    return Err(
                        Error::OpNotPossible(
                            String::from_str(
                                "Hash mismatch for specified symlink source path: ",
                            ).concat(path),
                        ),
                    );
                },
                Err(e) => {
                    return Err(e);
                },
            }
        },
        None => {},
    }
    let intended: &String = match source {
        Some(src) => src,
        None => match keeper {
            Some(k) => k,
            None => {
                return Err(
                    Error::OpNotAllowed(
                        String::from_str("Group has no keeper for an implicit symlink source"),
                    ),
                );
            },
        },
    };
    let ist = view.stat(intended.as_str());
    if ist.is_symlink {
        return Err(
            Error::OpNotAllowed(
                String::from_str("Source path cannot be a symlink itself: ").concat(
                    intended.as_str(),
                ),
            ),
        );
    }
    let is_explicit = match source {
        Some(_) => true,
        None => false,
    };
    if st.is_symlink {
        match &st.link_target {
            Some(actual) => {
                match verify_symlink_source_path(
                    intended.as_str(),
                    actual.as_str(),
                    path,
                    is_explicit,
                    view,
                ) {
                    Ok(true) => Ok(
                        Action::Symlink {
                            path: String::from_str(path),
                            source: intended.clone(),
                            is_explicit,
                            is_no_op: true,
                        },
                    ),
                    Ok(false) => Err(
                        Error::OpNotAllowed(
                            String::from_str(
                                "Updation of symlink source path is not supported: ",
                            ).concat(path),
                        ),
                    ),
                    Err(e) => Err(e),
                }
            },
            None => Ok(
                Action::Symlink {
                    path: String::from_str(path),
                    source: intended.clone(),
                    is_explicit,
                    is_no_op: false,
                },
            ),
        }
    } else if st.is_file {
        Ok(
            Action::Symlink {
                path: String::from_str(path),
                source: intended.clone(),
                is_explicit,
                is_no_op: false,
            },
        )
    } else {
        Err(
            Error::OpNotPossible(
                String::from_str("Operation 'symlink' not possible for non-existing path: ")
                    .concat(path),
            ),
        )
    }
}

fn validate_path_to_delete(path: &str, expected: &Checksum, view: &FsView) -> (r: Result<
    Action,
    Error,
>)
    ensures
        match r {
            Ok(a) => validate_delete_spec(path@, expected.spec_value(), view@) == Ok::<
                ActionV,
                ErrV,
            >(a@),
            Err(e) => validate_delete_spec(path@, expected.spec_value(), view@) matches Err(ev)
                && error_matches(e, ev),
        },
{
    let st = view.stat(path);
    if st.exists {
        match &st.canonical {
            Some(_) => {
                match validate_checksum(path, &st, expected) {
                    Ok(()) => Ok(Action::Delete { path: String::from_str(path), is_no_op: false }),
                    Err(e) => Err(e),
                }
            },
            None => Err(
                Error::OpNotAllowed(
                    String::from_str("Couldn't verify file marked for deletion: ").concat(path),
                ),
            ),
        }
    } else {
        Ok(Action::Delete { path: String::from_str(path), is_no_op: true })
    }
}

fn validate_path(
    rootdir: &str,
    hash: &Checksum,
    filepath: &FilePath,
    keeper: Option<&String>,
    view: &FsView,
) -> (r: Result<Action, Error>)
    ensures
        match r {
            Ok(a) => validate_path_spec(
                rootdir@,
                hash.spec_value(),
                filepath@,
                match keeper {
                    Some(k) => Some(k@),
                    None => None,
                },
                view@,
            ) == Ok::<ActionV, ErrV>(a@),
            Err(e) => validate_path_spec(
                rootdir@,
                hash.spec_value(),
                filepath@,
                match keeper {
                    Some(k) => Some(k@),
                    None => None,
                },
                view@,
            ) matches Err(ev) && error_matches(e, ev),
        },
{
    if !within_rootdir(rootdir, filepath.path.as_str()) {
        return Err(
            Error::CorruptSnapshot(
                String::from_str("Path is external to the rootdir: ").concat(
                    filepath.path.as_str(),
                ),
            ),
        );
    }
    match &filepath.op {
        FileOp::Keep => validate_path_to_keep(filepath.path.as_str(), hash, view),
        FileOp::Symlink { source } => validate_path_to_symlink(
            filepath.path.as_str(),
            match source {
                Some(s) => Some(s),
                None => None,
            },
            keeper,
            hash,
            view,
        ),
        FileOp::Delete => validate_path_to_delete(filepath.path.as_str(), hash, view),
    }
}

/// Checks the structural rules of one group: at least two entries, and
/// a keeper unless the group is fully marked for deletion and that is
/// allowed.
pub fn validate_group(hash: &Checksum, filepaths: &Vec<FilePath>, allow_full_deletion: bool) -> (r:
    Result<(), Error>)
    ensures
        match r {
            Ok(()) => group_err_spec(
                GroupV { checksum: hash.spec_value(), files: fps_view(filepaths@) },
                allow_full_deletion,
            ) is None,
            Err(e) => group_err_spec(
                GroupV { checksum: hash.spec_value(), files: fps_view(filepaths@) },
                allow_full_deletion,
            ) matches Some(ev) && error_matches(e, ev),
        },
{
    proof {
        assert(forall|j: int|
            0 <= j < filepaths@.len() ==> fps_view(filepaths@)[j] == filepaths@[j]@);
    }
    if filepaths.len() <= 1 {
        return Err(
            Error::CorruptSnapshot(
                String::from_str("Group must contain at least 2 paths: ").concat(
                    hash.render().as_str(),
                ),
            ),
        );
    }
    let ghost gv = GroupV { checksum: hash.spec_value(), files: fps_view(filepaths@) };
    proof {
        assert(gv.files.len() == filepaths@.len());
    }
    match find_keeper(filepaths) {
        Some(i) => {
            proof {
                let j = choose|j: int|
                    0 <= j < filepaths@.len() && is_keep(#[trigger] filepaths@[j]@)
                        && filepaths@[j]@.path == filepaths@[i as int]@.path;
                assert(is_keep(fps_view(filepaths@)[j]));
                assert(0 <= j < gv.files.len() && is_keep(gv.files[j]));
                assert(group_err_spec(gv, allow_full_deletion) is None);
            }
            Ok(())
        },
        None => {
            proof {
                assert forall|j: int| 0 <= j < fps_view(filepaths@).len() implies !is_keep(
                    #[trigger] fps_view(filepaths@)[j],
                ) by {
                    assert(fps_view(filepaths@)[j] == filepaths@[j]@);
                }
            }
            if allow_full_deletion && crate::snapshot::are_all_deletions(filepaths) {
                proof {
                    assert forall|j: int| 0 <= j < fps_view(filepaths@).len() implies (
                    #[trigger] fps_view(filepaths@)[j]).op is Delete by {
                        assert(fps_view(filepaths@)[j] == filepaths@[j]@);
                    }
                    assert(all_deletes(fps_view(filepaths@)));
                    assert(group_err_spec(gv, allow_full_deletion) is None);
                }
                Ok(())
            } else {
                proof {
                    if allow_full_deletion {
                        let j = choose|j: int|
                            0 <= j < filepaths@.len() && !((#[trigger] filepaths@[j]@).op
                                is Delete);
                        assert(!((fps_view(filepaths@)[j]).op is Delete));
                        assert(!all_deletes(gv.files));
                    }
                    assert(group_err_spec(gv, allow_full_deletion) == Some(ErrV::OpNotAllowed));
                }
                Err(
                    Error::OpNotAllowed(
                        String::from_str(
                            "Group must contain at least 1 path marked 'keep': ",
                        ).concat(hash.render().as_str()),
                    ),
                )
            }
        },
    }
}

/// Validates a snapshot against the observed filesystem view and
/// derives the action list: one action per entry, in snapshot order,
/// stopping at the first fault.
pub fn validate(snap: &Snapshot, allow_full_deletion: bool, view: &FsView) -> (r: Result<
    Vec<Action>,
    Error,
>)
    ensures
        match r {
            Ok(actions) => validate_spec(snap@, allow_full_deletion, view@) == Ok::<
                Seq<ActionV>,
                ErrV,
            >(actions_view(actions@)),
            Err(e) => validate_spec(snap@, allow_full_deletion, view@) matches Err(ev)
                && error_matches(e, ev),
        },
{
    match validate_rootdir(snap.rootdir.as_str(), view) {
        Ok(()) => {},
        Err(e) => {
            return Err(e);
        },
    }
    let mut actions: Vec<Action> = Vec::new();
    let ghost dups = crate::snapshot::groups_view(snap.duplicates@);
    let n = snap.duplicates.len();
    let mut gi: usize = 0;
    proof {
        assert(actions_view(actions@) =~= Seq::<ActionV>::empty());
        assert(dups.skip(0) =~= dups);
        assert forall|more: Seq<ActionV>| true implies actions_view(actions@) + more =~= more
            by {}
    }
    while gi < n
        invariant
            0 <= gi <= n,
            n == snap.duplicates@.len(),
            dups == crate::snapshot::groups_view(snap.duplicates@),
            stat_spec(view@, snap.rootdir@).exists,
            validate_groups_spec(dups, snap.rootdir@, allow_full_deletion, view@) == match
                validate_groups_spec(
                dups.skip(gi as int),
                snap.rootdir@,
                allow_full_deletion,
                view@,
            ) {
                Ok(more) => Ok::<Seq<ActionV>, ErrV>(actions_view(actions@) + more),
                Err(e) => Err(e),
            },
        decreases n - gi,
    {
        let g = &snap.duplicates[gi];
        proof {
            assert(dups.skip(gi as int)[0] == dups[gi as int]);
            assert(dups[gi as int] == snap.duplicates@[gi as int]@);
            assert(dups.skip(gi as int).drop_first() =~= dups.skip(gi + 1));
        }
        match validate_group(&g.checksum, &g.files, allow_full_deletion) {
            Ok(()) => {
                proof {
                    assert(dups[gi as int] == GroupV {
                        checksum: g.checksum.spec_value(),
                        files: fps_view(g.files@),
                    });
                }
            },
            Err(e) => {
                proof {
                    assert(dups[gi as int] == GroupV {
                        checksum: g.checksum.spec_value(),
                        files: fps_view(g.files@),
                    });
                    assert(validate_groups_spec(
                        dups.skip(gi as int),
                        snap.rootdir@,
                        allow_full_deletion,
                        view@,
                    ) is Err);
                    assert(snap@.rootdir == snap.rootdir@);
                    assert(snap@.duplicates == dups);
                    assert(stat_spec(view@, snap@.rootdir).exists);
                    assert(validate_spec(snap@, allow_full_deletion, view@)
                        == validate_groups_spec(dups, snap.rootdir@, allow_full_deletion, view@));
                }
                return Err(e);
            },
        }
        let keeper_idx = find_keeper(&g.files);
        let ghost fv = fps_view(g.files@);
        proof {
            lemma_min_keep_path(fv);
            assert(forall|j: int| 0 <= j < g.files@.len() ==> fv[j] == g.files@[j]@);
        }
        let keeper: Option<&String> = match keeper_idx {
            Some(i) => {
                proof {
                    let jx0 = choose|jx0: int|
                        0 <= jx0 < g.files@.len() && is_keep(#[trigger] g.files@[jx0]@) && g
                            .files@[jx0]@.path == g.files@[i as int]@.path;
                    match min_keep_path(fv) {
                        None => {
                            assert(is_keep(fv[jx0]));
                            assert(false);
                        },
                        Some(p) => {
                            let jx = choose|jx: int|
                                0 <= jx < g.files@.len() && is_keep(#[trigger] g.files@[jx]@) && g
                                    .files@[jx]@.path == g.files@[i as int]@.path;
                            assert(is_keep(fv[jx]) && fv[jx].path == fv[i as int].path);
                            assert(seq_le(p, fv[jx].path));
                            let jp = choose|jp: int|
                                0 <= jp < fv.len() && is_keep(#[trigger] fv[jp]) && fv[jp].path
                                    == p;
                            assert(is_keep(g.files@[jp]@));
                            assert(seq_le(fv[i as int].path, fv[jp].path));
                            crate::strutil::lemma_seq_le_antisym(p, fv[i as int].path);
                        },
                    }
                }
                Some(&g.files[i].path)
            },
            None => {
                proof {
                    match min_keep_path(fv) {
                        None => {},
                        Some(p) => {
                            let jp = choose|jp: int|
                                0 <= jp < fv.len() && is_keep(#[trigger] fv[jp]) && fv[jp].path
                                    == p;
                            assert(is_keep(g.files@[jp]@));
                            assert(false);
                        },
                    }
                }
                None
            },
        };
        let m = g.files.len();
        let mut fi: usize = 0;
        proof {
            assert(fv.skip(0) == fv);
            assert(actions@.skip(actions@.len() as int) =~= Seq::<Action>::empty());
            assert forall|more: Seq<ActionV>| true implies actions_view(
                actions@.skip(actions@.len() as int),
            ) + more =~= more by {
                assert(actions_view(actions@.skip(actions@.len() as int))
                    =~= Seq::<ActionV>::empty());
            }
            assert(actions@.take(actions@.len() as int) =~= actions@);
        }
        while fi < m
            invariant
                0 <= fi <= m,
                0 <= gi < n,
                m == g.files@.len(),
                stat_spec(view@, snap.rootdir@).exists,
                g == &snap.duplicates@[gi as int],
                n == snap.duplicates@.len(),
                dups == crate::snapshot::groups_view(snap.duplicates@),
                fv == fps_view(g.files@),
                match keeper {
                    Some(k) => min_keep_path(fv) == Some(k@),
                    None => min_keep_path(fv) is None,
                },
                validate_groups_spec(dups, snap.rootdir@, allow_full_deletion, view@) == match
                    validate_groups_spec(
                    dups.skip(gi as int),
                    snap.rootdir@,
                    allow_full_deletion,
                    view@,
                ) {
                    Ok(more) => Ok::<Seq<ActionV>, ErrV>(
                        actions_view(actions@.take(actions@.len() - fi)) + more,
                    ),
                    Err(e) => Err(e),
                },
                fi <= actions@.len(),
                group_err_spec(dups[gi as int], allow_full_deletion) is None,
                validate_entries_spec(
                    fv,
                    snap.rootdir@,
                    g.checksum.spec_value(),
                    min_keep_path(fv),
                    view@,
                ) == match validate_entries_spec(
                    fv.skip(fi as int),
                    snap.rootdir@,
                    g.checksum.spec_value(),
                    min_keep_path(fv),
                    view@,
                ) {
                    Ok(more) => Ok::<Seq<ActionV>, ErrV>(
                        actions_view(actions@.skip(actions@.len() - fi)) + more,
                    ),
                    Err(e) => Err(e),
                },
            decreases m - fi,
        {
            proof {
                assert(fv.skip(fi as int)[0] == fv[fi as int]);
                assert(fv[fi as int] == g.files@[fi as int]@);
                assert(fv.skip(fi as int).drop_first() =~= fv.skip(fi + 1));
            }
            let a = match validate_path(
                snap.rootdir.as_str(),
                &g.checksum,
                &g.files[fi],
                keeper,
                view,
            ) {
                Ok(a) => a,
                Err(e) => {
                    proof {
                        assert(validate_entries_spec(
                            fv.skip(fi as int),
                            snap.rootdir@,
                            g.checksum.spec_value(),
                            min_keep_path(fv),
                            view@,
                        ) is Err);
                        assert(dups[gi as int].files == fv);
                        assert(validate_groups_spec(
                            dups.skip(gi as int),
                            snap.rootdir@,
                            allow_full_deletion,
                            view@,
                        ) is Err);
                        assert(snap@.rootdir == snap.rootdir@);
                        assert(snap@.duplicates == dups);
                        assert(stat_spec(view@, snap@.rootdir).exists);
                        assert(validate_spec(snap@, allow_full_deletion, view@)
                            == validate_groups_spec(
                            dups,
                            snap.rootdir@,
                            allow_full_deletion,
                            view@,
                        ));
                    }
                    return Err(e);
                },
            };
            let ghost av = a@;
            let ghost aexec = a;
            let ghost oldacts = actions@;
            actions.push(a);
            proof {
                assert(actions@ =~= oldacts.push(aexec));
                assert(actions@.skip(actions@.len() - (fi + 1)) =~= oldacts.skip(
                    oldacts.len() - fi,
                ).push(aexec));
                assert(actions@.take(actions@.len() - (fi + 1)) =~= oldacts.take(
                    oldacts.len() - fi,
                ));
                assert forall|more: Seq<ActionV>| true implies actions_view(
                    oldacts.skip(oldacts.len() - fi),
                ) + (seq![av] + more) =~= actions_view(actions@.skip(actions@.len() - (fi + 1)))
                    + more by {
                    assert(actions_view(actions@.skip(actions@.len() - (fi + 1))) =~= actions_view(
                        oldacts.skip(oldacts.len() - fi),
                    ).push(av));
                }
            }
            fi = fi + 1;
        }
        proof {
            assert(fv.skip(m as int) =~= Seq::<FilePathV>::empty());
            assert(validate_entries_spec(
                fv.skip(m as int),
                snap.rootdir@,
                g.checksum.spec_value(),
                min_keep_path(fv),
                view@,
            ) == Ok::<Seq<ActionV>, ErrV>(Seq::empty()));
            let acts_g = actions_view(actions@.skip(actions@.len() - m));
            assert(acts_g + Seq::<ActionV>::empty() =~= acts_g);
            assert(dups[gi as int] == GroupV {
                checksum: g.checksum.spec_value(),
                files: fv,
            });
            assert(validate_groups_spec(
                dups.skip(gi as int),
                snap.rootdir@,
                allow_full_deletion,
                view@,
            ) == match validate_groups_spec(
                dups.skip(gi + 1),
                snap.rootdir@,
                allow_full_deletion,
                view@,
            ) {
                Ok(more) => Ok::<Seq<ActionV>, ErrV>(acts_g + more),
                Err(e) => Err(e),
            });
            assert forall|more: Seq<ActionV>| true implies actions_view(
                actions@.take(actions@.len() - m),
            ) + (acts_g + more) =~= actions_view(actions@) + more by {
                assert(actions_view(actions@.take(actions@.len() - m)) + acts_g =~= actions_view(
                    actions@,
                ));
            }
            assert(validate_groups_spec(dups, snap.rootdir@, allow_full_deletion, view@) == match
                validate_groups_spec(dups.skip(gi + 1), snap.rootdir@, allow_full_deletion, view@) {
                Ok(more) => Ok::<Seq<ActionV>, ErrV>(actions_view(actions@) + more),
                Err(e) => Err(e),
            });
        }
        gi = gi + 1;
    }
    proof {
        assert(dups.skip(n as int) =~= Seq::<GroupV>::empty());
        assert(actions_view(actions@) + Seq::<ActionV>::empty() =~= actions_view(actions@));
        assert(snap@.rootdir == snap.rootdir@);
        assert(snap@.duplicates == dups);
        assert(stat_spec(view@, snap@.rootdir).exists);
        assert(validate_spec(snap@, allow_full_deletion, view@) == validate_groups_spec(
            dups,
            snap.rootdir@,
            allow_full_deletion,
            view@,
        ));
    }
    Ok(actions)
}

} // verus!
