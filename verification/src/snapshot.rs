//! Snapshot model: a group of duplicate files keyed by checksum, the
//! per-file operation chosen by the user, and the whole-snapshot
//! container.

pub mod textformat;
pub mod validation;

use vstd::prelude::*;
use crate::hash::Checksum;
use crate::strutil::{seq_le, str_eq, str_le};
use crate::strutil::lemma_seq_le_total;

verus! {

/// The operation chosen for one file of a duplicate group.
///
/// A `Symlink` source is kept exactly as the user wrote it (absolute or
/// relative); it is never canonicalized, so the symlink that gets
/// created matches the snapshot text. `None` marks an implicit source,
/// resolved by the validator from the group's keeper.
#[derive(Debug, Clone, PartialEq, Eq)]
pub enum FileOp {
    Keep,
    Symlink { source: Option<String> },
    Delete,
}

impl FileOp {
    /// Decodes an operation keyword, carrying `extra` as the symlink
    /// source.
    pub fn decode(keyword: &str, extra: Option<&str>) -> (r: Option<FileOp>)
        ensures
            match r {
                Some(op) => decode_op_spec(
                    keyword@,
                    match extra {
                        Some(s) => Some(s@),
                        None => None,
                    },
                ) == Some(op@),
                None => decode_op_spec(
                    keyword@,
                    match extra {
                        Some(s) => Some(s@),
                        None => None,
                    },
                ) is None,
            },
    {
        if str_eq(keyword, "keep") {
            Some(FileOp::Keep)
        } else if str_eq(keyword, "symlink") {
            match extra {
                Some(s) => Some(FileOp::Symlink { source: Some(String::from_str(s)) }),
                None => Some(FileOp::Symlink { source: None }),
            }
        } else if str_eq(keyword, "delete") {
            Some(FileOp::Delete)
        } else {
            None
        }
    }

    /// The keyword for this operation in the text format.
    pub fn keyword(&self) -> (r: &'static str)
        ensures
            r@ == match self {
                FileOp::Keep => "keep"@,
                FileOp::Symlink { .. } => "symlink"@,
                FileOp::Delete => "delete"@,
            },
    {
        match self {
            FileOp::Keep => "keep",
            FileOp::Symlink { source: _ } => "symlink",
            FileOp::Delete => "delete",
        }
    }
}

/// The decoded operation for a keyword and an optional symlink source.
pub open spec fn decode_op_spec(keyword: Seq<char>, extra: Option<Seq<char>>) -> Option<FileOpV> {
    if keyword == "keep"@ {
        Some(FileOpV::Keep)
    } else if keyword == "symlink"@ {
        Some(FileOpV::Symlink { source: extra })
    } else if keyword == "delete"@ {
        Some(FileOpV::Delete)
    } else {
        None
    }
}

/// The view of a `FileOp`, with the symlink source as a character
/// sequence.
pub enum FileOpV {
    Keep,
    Symlink { source: Option<Seq<char>> },
    Delete,
}

impl View for FileOp {
    type V = FileOpV;

    open spec fn view(&self) -> FileOpV {
        match self {
            FileOp::Keep => FileOpV::Keep,
            FileOp::Symlink { source } => FileOpV::Symlink {
                source: match source {
                    Some(s) => Some(s@),
                    None => None,
                },
            },
            FileOp::Delete => FileOpV::Delete,
        }
    }
}

/// An absolute file path together with the operation chosen for it.
#[derive(Debug, Clone, PartialEq, Eq)]
pub struct FilePath {
    pub path: String,
    pub op: FileOp,
}

/// The view of a `FilePath`.
pub struct FilePathV {
    pub path: Seq<char>,
    pub op: FileOpV,
}

impl View for FilePath {
    type V = FilePathV;

    open spec fn view(&self) -> FilePathV {
        FilePathV { path: self.path@, op: self.op@ }
    }
}

impl FilePath {
    /// Builds the entry for a freshly scanned path: an entry that is
    /// itself a symlink starts out as `Symlink` with the link's stored
    /// target as source, any other entry as `Keep`.
    pub fn new(path: String, is_symlink: bool, link_target: Option<String>) -> (r: FilePath)
        ensures
            r@.path == path@,
            r@.op == if is_symlink {
                FileOpV::Symlink {
                    source: match link_target {
                        Some(t) => Some(t@),
                        None => None,
                    },
                }
            } else {
                FileOpV::Keep
            },
    {
        let op = if is_symlink {
            FileOp::Symlink { source: link_target }
        } else {
            FileOp::Keep
        };
        FilePath { path, op }
    }
}

/// Whether an entry is marked `keep`.
pub open spec fn is_keep(fp: FilePathV) -> bool {
    fp.op is Keep
}

/// Tests whether an entry is marked `keep`.
pub fn is_keep_entry(fp: &FilePath) -> (r: bool)
    ensures
        r == is_keep(fp@),
{
    match fp.op {
        FileOp::Keep => true,
        FileOp::Symlink { .. } => false,
        FileOp::Delete => false,
    }
}

/// The view of a list of entries.
pub open spec fn fps_view(s: Seq<FilePath>) -> Seq<FilePathV> {
    s.map_values(|fp: FilePath| fp@)
}

/// Returns the index of the group's keeper, if any.
///
/// The keeper is the `keep` entry whose path is least in lexicographic
/// order — a stable choice, so independent edits of one snapshot tend to
/// resolve implicit symlink sources to the same entry — and the index
/// returned is that of the first entry carrying that path.
pub fn find_keeper(filepaths: &Vec<FilePath>) -> (r: Option<usize>)
    ensures
        match r {
            Some(i) => {
                &&& 0 <= i < filepaths@.len()
                &&& exists|j: int|
                    0 <= j < filepaths@.len() && is_keep(#[trigger] filepaths@[j]@)
                        && filepaths@[j]@.path == filepaths@[i as int]@.path
                &&& forall|j: int|
                    0 <= j < filepaths@.len() && is_keep(#[trigger] filepaths@[j]@) ==> seq_le(
                        filepaths@[i as int]@.path,
                        filepaths@[j]@.path,
                    )
                &&& forall|j: int|
                    0 <= j < i ==> (#[trigger] filepaths@[j]@).path != filepaths@[i as int]@.path
            },
            None => forall|j: int|
                0 <= j < filepaths@.len() ==> !is_keep(#[trigger] filepaths@[j]@),
        },
{
    let n = filepaths.len();
    let mut best: Option<usize> = None;
    let mut i: usize = 0;
    while i < n
        invariant
            0 <= i <= n,
            n == filepaths@.len(),
            match best {
                Some(b) => {
                    &&& 0 <= b < i
                    &&& is_keep(filepaths@[b as int]@)
                    &&& forall|j: int|
                        0 <= j < i && is_keep(#[trigger] filepaths@[j]@) ==> seq_le(
                            filepaths@[b as int]@.path,
                            filepaths@[j]@.path,
                        )
                },
                None => forall|j: int| 0 <= j < i ==> !is_keep(#[trigger] filepaths@[j]@),
            },
        decreases n - i,
    {
        let is_k = is_keep_entry(&filepaths[i]);
        if is_k {
            match best {
                None => {
                    proof {
                        lemma_seq_le_total(
                            filepaths@[i as int]@.path,
                            filepaths@[i as int]@.path,
                        );
                    }
                    best = Some(i);
                },
                Some(b) => {
                    if str_le(filepaths[i].path.as_str(), filepaths[b].path.as_str())
                        && !str_le(filepaths[b].path.as_str(), filepaths[i].path.as_str()) {
                        proof {
                            lemma_seq_le_total(
                                filepaths@[i as int]@.path,
                                filepaths@[i as int]@.path,
                            );
                            assert forall|j: int|
                                0 <= j < i && is_keep(#[trigger] filepaths@[j]@) implies seq_le(
                                filepaths@[i as int]@.path,
                                filepaths@[j]@.path,
                            ) by {
                                crate::strutil::lemma_seq_le_trans(
                                    filepaths@[i as int]@.path,
                                    filepaths@[b as int]@.path,
                                    filepaths@[j]@.path,
                                );
                            }
                        }
                        best = Some(i);
                    } else {
                        proof {
                            lemma_seq_le_total(
                                filepaths@[b as int]@.path,
                                filepaths@[i as int]@.path,
                            );
                        }
                    }
                },
            }
        }
        i = i + 1;
    }
    match best {
        None => None,
        Some(b) => {
            let mut k: usize = 0;
            loop
                invariant
                    0 <= k <= b < n,
                    n == filepaths@.len(),
                    is_keep(filepaths@[b as int]@),
                    forall|j: int|
                        0 <= j < n && is_keep(#[trigger] filepaths@[j]@) ==> seq_le(
                            filepaths@[b as int]@.path,
                            filepaths@[j]@.path,
                        ),
                    forall|j: int|
                        0 <= j < k ==> (#[trigger] filepaths@[j]@).path != filepaths@[b
                            as int]@.path,
                decreases b - k,
            {
                if k == b {
                    return Some(b);
                }
                if str_eq(filepaths[k].path.as_str(), filepaths[b].path.as_str()) {
                    proof {
                        assert(filepaths@[k as int]@.path == filepaths@[b as int]@.path);
                    }
                    return Some(k);
                }
                k = k + 1;
            }
        },
    }
}

/// The least path among the `keep` entries, if any: the path of the
/// group's keeper.
pub open spec fn min_keep_path(s: Seq<FilePathV>) -> Option<Seq<char>>
    decreases s.len(),
{
    if s.len() == 0 {
        None
    } else {
        let rest = min_keep_path(s.drop_first());
        if !is_keep(s[0]) {
            rest
        } else {
            match rest {
                None => Some(s[0].path),
                Some(q) => if seq_le(s[0].path, q) {
                    Some(s[0].path)
                } else {
                    Some(q)
                },
            }
        }
    }
}

/// `min_keep_path` is the path of some `keep` entry and is least among
/// them; it is `None` exactly when no entry is marked `keep`.
pub proof fn lemma_min_keep_path(s: Seq<FilePathV>)
    ensures
        match min_keep_path(s) {
            None => forall|j: int| 0 <= j < s.len() ==> !is_keep(#[trigger] s[j]),
            Some(p) => (exists|j: int|
                0 <= j < s.len() && is_keep(#[trigger] s[j]) && s[j].path == p) && forall|j: int|
                0 <= j < s.len() && is_keep(#[trigger] s[j]) ==> seq_le(p, s[j].path),
        },
    decreases s.len(),
{
    if s.len() > 0 {
        let sdf = s.drop_first();
        lemma_min_keep_path(sdf);
        let rest = min_keep_path(sdf);
        assert(forall|j: int| 0 <= j < sdf.len() ==> sdf[j] == s[j + 1]);
        match min_keep_path(s) {
            None => {
                assert forall|j: int| 0 <= j < s.len() implies !is_keep(#[trigger] s[j]) by {
                    if j > 0 {
                        assert(sdf[j - 1] == s[j]);
                        assert(!is_keep(sdf[j - 1]));
                    }
                }
            },
            Some(p) => {
                if is_keep(s[0]) {
                    lemma_seq_le_total(s[0].path, s[0].path);
                    match rest {
                        None => {
                            assert forall|j: int|
                                0 <= j < s.len() && is_keep(#[trigger] s[j]) implies seq_le(
                                p,
                                s[j].path,
                            ) by {
                                if j > 0 {
                                    assert(is_keep(sdf[j - 1]));
                                }
                            }
                        },
                        Some(q) => {
                            lemma_seq_le_total(s[0].path, q);
                            let jq = choose|jq: int|
                                0 <= jq < sdf.len() && is_keep(#[trigger] sdf[jq]) && sdf[jq].path
                                    == q;
                            assert(0 <= jq + 1 < s.len() && is_keep(s[jq + 1]) && s[jq + 1].path
                                == q);
                            assert forall|j: int|
                                0 <= j < s.len() && is_keep(#[trigger] s[j]) implies seq_le(
                                p,
                                s[j].path,
                            ) by {
                                if j > 0 {
                                    assert(is_keep(sdf[j - 1]));
                                    assert(seq_le(q, s[j].path));
                                    if seq_le(s[0].path, q) {
                                        crate::strutil::lemma_seq_le_trans(
                                            s[0].path,
                                            q,
                                            s[j].path,
                                        );
                                    }
                                }
                            }
                        },
                    }
                } else {
                    let jq = choose|jq: int|
                        0 <= jq < sdf.len() && is_keep(#[trigger] sdf[jq]) && sdf[jq].path == p;
                    assert(0 <= jq + 1 < s.len() && is_keep(s[jq + 1]) && s[jq + 1].path == p);
                    assert forall|j: int|
                        0 <= j < s.len() && is_keep(#[trigger] s[j]) implies seq_le(
                        p,
                        s[j].path,
                    ) by {
                        if j > 0 {
                            assert(is_keep(sdf[j - 1]));
                        }
                    }
                }
            },
        }
    }
}

/// Checks whether every entry of a duplicate group is marked for
/// deletion.
pub fn are_all_deletions(filepaths: &Vec<FilePath>) -> (r: bool)
    ensures
        r == forall|j: int|
            0 <= j < filepaths@.len() ==> (#[trigger] filepaths@[j]@).op is Delete,
{
    let n = filepaths.len();
    let mut i: usize = 0;
    while i < n
        invariant
            0 <= i <= n,
            n == filepaths@.len(),
            forall|j: int| 0 <= j < i ==> (#[trigger] filepaths@[j]@).op is Delete,
        decreases n - i,
    {
        match &filepaths[i].op {
            FileOp::Delete => {},
            _ => {
                proof {
                    assert(!(filepaths@[i as int]@.op is Delete));
                }
                return false;
            },
        }
        i = i + 1;
    }
    true
}

/// The number of `keep` entries in a group.
pub open spec fn count_keeps(s: Seq<FilePathV>) -> int
    decreases s.len(),
{
    if s.len() == 0 {
        0
    } else {
        count_keeps(s.drop_last()) + (if is_keep(s.last()) {
            1int
        } else {
            0int
        })
    }
}

/// Checks whether a group is already deduplicated: exactly one entry
/// marked `keep`, the rest marked `symlink`, and none marked `delete`.
pub fn is_group_deduped(filepaths: &Vec<FilePath>) -> (r: bool)
    ensures
        r == deduped_spec(fps_view(filepaths@)),
{
    let n = filepaths.len();
    let mut num_keeps: usize = 0;
    let mut i: usize = 0;
    while i < n
        invariant
            0 <= i <= n,
            n == filepaths@.len(),
            num_keeps <= i,
            num_keeps == count_keeps(fps_view(filepaths@).take(i as int)),
            forall|j: int| 0 <= j < i ==> !((#[trigger] filepaths@[j]@).op is Delete),
        decreases n - i,
    {
        proof {
            assert(fps_view(filepaths@).take(i + 1).drop_last() =~= fps_view(filepaths@).take(
                i as int,
            ));
            assert(fps_view(filepaths@).take(i + 1).last() == filepaths@[i as int]@);
        }
        match &filepaths[i].op {
            FileOp::Keep => {
                num_keeps = num_keeps + 1;
            },
            FileOp::Delete => {
                proof {
                    assert(filepaths@[i as int]@.op is Delete);
                    assert(fps_view(filepaths@)[i as int].op is Delete);
                    assert(!deduped_spec(fps_view(filepaths@)));
                }
                return false;
            },
            FileOp::Symlink { source: _ } => {},
        }
        i = i + 1;
    }
    proof {
        assert(fps_view(filepaths@).take(n as int) == fps_view(filepaths@));
        assert forall|j: int| 0 <= j < fps_view(filepaths@).len() implies !((
        #[trigger] fps_view(filepaths@)[j]).op is Delete) by {
            assert(fps_view(filepaths@)[j] == filepaths@[j]@);
        }
    }
    num_keeps == 1
}

impl FilePath {
    /// A copy of this entry.
    pub fn duplicate(&self) -> (r: FilePath)
        ensures
            r@ == self@,
    {
        let op = match &self.op {
            FileOp::Keep => FileOp::Keep,
            FileOp::Delete => FileOp::Delete,
            FileOp::Symlink { source } => FileOp::Symlink {
                source: match source {
                    Some(s) => Some(s.clone()),
                    None => None,
                },
            },
        };
        FilePath { path: self.path.clone(), op }
    }
}

/// One duplicate group: a checksum and the entries sharing it.
#[derive(Debug, Clone, PartialEq, Eq)]
pub struct Group {
    pub checksum: Checksum,
    pub files: Vec<FilePath>,
}

/// The view of a group.
pub struct GroupV {
    pub checksum: u64,
    pub files: Seq<FilePathV>,
}

impl View for Group {
    type V = GroupV;

    open spec fn view(&self) -> GroupV {
        GroupV { checksum: self.checksum.spec_value(), files: fps_view(self.files@) }
    }
}

impl Group {
    /// A copy of this group.
    pub fn duplicate(&self) -> (r: Group)
        ensures
            r@ == self@,
    {
        let mut files: Vec<FilePath> = Vec::new();
        let n = self.files.len();
        let mut i: usize = 0;
        while i < n
            invariant
                0 <= i <= n,
                n == self.files@.len(),
                files@.len() == i,
                forall|j: int| 0 <= j < i ==> #[trigger] files@[j]@ == self.files@[j]@,
            decreases n - i,
        {
            files.push(self.files[i].duplicate());
            i = i + 1;
        }
        let r = Group { checksum: self.checksum, files };
        proof {
            assert(fps_view(r.files@) =~= fps_view(self.files@));
        }
        r
    }
}

/// The view of a list of groups.
pub open spec fn groups_view(s: Seq<Group>) -> Seq<GroupV> {
    s.map_values(|g: Group| g@)
}

/// A whole snapshot: the root directory it was taken under, the moment
/// it was generated (as an RFC 2822 timestamp string), and the duplicate
/// groups.
#[derive(Debug, Clone, PartialEq, Eq)]
pub struct Snapshot {
    pub rootdir: String,
    pub generated_at: String,
    pub duplicates: Vec<Group>,
}

/// The view of a snapshot.
pub struct SnapshotV {
    pub rootdir: Seq<char>,
    pub generated_at: Seq<char>,
    pub duplicates: Seq<GroupV>,
}

impl View for Snapshot {
    type V = SnapshotV;

    open spec fn view(&self) -> SnapshotV {
        SnapshotV {
            rootdir: self.rootdir@,
            generated_at: self.generated_at@,
            duplicates: groups_view(self.duplicates@),
        }
    }
}

/// A group is in deduplicated form: one `keep`, no `delete`.
pub open spec fn deduped_spec(files: Seq<FilePathV>) -> bool {
    count_keeps(files) == 1 && forall|j: int| 0 <= j < files.len() ==> !((#[trigger] files[j]).op
        is Delete)
}

/// The initial entry for one scanned path: a path that is itself a
/// symlink starts out as `symlink` with the stored link target as its
/// source, any other path as `keep`.
pub open spec fn filepath_of_entry(e: crate::scanner::ScanEntryV) -> FilePathV {
    FilePathV {
        path: e.path,
        op: if e.is_symlink {
            FileOpV::Symlink { source: e.link_target }
        } else {
            FileOpV::Keep
        },
    }
}

/// The entries of one scanned duplicate group, in member order.
pub open spec fn files_of_group(
    dg: crate::scanner::DupGroup,
    entries: Seq<crate::scanner::ScanEntryV>,
) -> Seq<FilePathV> {
    dg.members@.map_values(|mm: usize| filepath_of_entry(entries[mm as int]))
}

/// The snapshot groups are the scanned groups carried over through the
/// strictly increasing index list `kept`: each kept group keeps its
/// checksum and its member entries in order, and a scanned group is
/// dropped exactly when deduplicated groups are skipped and it is
/// already in `one keep + symlinks` form.
pub open spec fn built_from_scan(
    dups: Seq<GroupV>,
    dgs: Seq<crate::scanner::DupGroup>,
    kept: Seq<int>,
    entries: Seq<crate::scanner::ScanEntryV>,
    skip_deduped: bool,
) -> bool {
    &&& kept.len() == dups.len()
    &&& forall|i: int| 0 <= i < kept.len() ==> 0 <= #[trigger] kept[i] < dgs.len()
    &&& forall|i: int, j: int| 0 <= i < j < kept.len() ==> #[trigger] kept[i] < #[trigger] kept[j]
    &&& forall|i: int|
        0 <= i < dups.len() ==> (#[trigger] dups[i]).checksum == dgs[kept[i]].checksum
            && dups[i].files == files_of_group(dgs[kept[i]], entries)
    &&& forall|j: int|
        #![auto]
        0 <= j < dgs.len() ==> (kept.contains(j) <==> !(skip_deduped && deduped_spec(
            files_of_group(dgs[j], entries),
        )))
}

/// The snapshot groups come from a sound and complete scan of the
/// entries, minus — when asked — the groups already deduplicated.
pub open spec fn snapshot_from_scan(
    dups: Seq<GroupV>,
    entries: Seq<crate::scanner::ScanEntryV>,
    rootcanon: Seq<char>,
    quick: bool,
    skip_deduped: bool,
) -> bool {
    exists|dgs: Seq<crate::scanner::DupGroup>, kept: Seq<int>|
        crate::scanner::scan_sound(dgs, entries, rootcanon, quick) && crate::scanner::scan_complete(
            dgs,
            entries,
            rootcanon,
            quick,
        ) && #[trigger] built_from_scan(dups, dgs, kept, entries, skip_deduped)
}

impl Snapshot {
    /// Builds a snapshot from a scan of the root: each duplicate group
    /// becomes a group of entries whose initial operation is `keep` for
    /// a regular file and `symlink` (with the stored link target as
    /// source) for an existing symlink. With `skip_deduped`, groups
    /// already in `one keep + symlinks` form are left out.
    pub fn of_rootdir(
        rootdir: &str,
        rootdir_canon: &str,
        generated_at: String,
        entries: &Vec<crate::scanner::ScanEntry>,
        quick: bool,
        skip_deduped: bool,
    ) -> (r: Snapshot)
        ensures
            r@.rootdir == rootdir@,
            r@.generated_at == generated_at@,
            snapshot_from_scan(
                r@.duplicates,
                crate::scanner::entries_view(entries@),
                rootdir_canon@,
                quick,
                skip_deduped,
            ),
            forall|i: int|
                0 <= i < r@.duplicates.len() ==> (#[trigger] r@.duplicates[i]).files.len() >= 2,
            forall|i: int, j: int|
                0 <= i < j < r@.duplicates.len() ==> (#[trigger] r@.duplicates[i]).checksum != (
                #[trigger] r@.duplicates[j]).checksum,
            skip_deduped ==> forall|i: int|
                0 <= i < r@.duplicates.len() ==> !deduped_spec(
                    (#[trigger] r@.duplicates[i]).files,
                ),
    {
        let ghost ev = crate::scanner::entries_view(entries@);
        let groups = crate::scanner::scan(rootdir_canon, entries, quick);
        let mut duplicates: Vec<Group> = Vec::new();
        let ghost mut kept: Seq<int> = Seq::empty();
        let n = groups.len();
        let mut gi: usize = 0;
        while gi < n
            invariant
                0 <= gi <= n,
                n == groups@.len(),
                ev == crate::scanner::entries_view(entries@),
                crate::scanner::scan_sound(groups@, ev, rootdir_canon@, quick),
                forall|i: int|
                    0 <= i < groups_view(duplicates@).len() ==> (#[trigger] groups_view(
                        duplicates@,
                    )[i]).files.len() >= 2,
                forall|i: int, j: int|
                    0 <= i < j < duplicates@.len() ==> (#[trigger] duplicates@[i]@).checksum != (
                    #[trigger] duplicates@[j]@).checksum,
                skip_deduped ==> forall|i: int|
                    0 <= i < duplicates@.len() ==> !deduped_spec(
                        (#[trigger] duplicates@[i]@).files,
                    ),
                kept.len() == duplicates@.len(),
                forall|i: int| 0 <= i < kept.len() ==> 0 <= #[trigger] kept[i] < gi,
                forall|i: int, j: int|
                    0 <= i < j < kept.len() ==> #[trigger] kept[i] < #[trigger] kept[j],
                forall|i: int|
                    0 <= i < duplicates@.len() ==> (#[trigger] duplicates@[i]@).checksum
                        == groups@[kept[i]].checksum && duplicates@[i]@.files == files_of_group(
                        groups@[kept[i]],
                        ev,
                    ),
                forall|j: int|
                    #![auto]
                    0 <= j < gi ==> (kept.contains(j) <==> !(skip_deduped && deduped_spec(
                        files_of_group(groups@[j], ev),
                    ))),
            decreases n - gi,
        {
            let dg = &groups[gi];
            let m = dg.members.len();
            proof {
                assert(crate::scanner::group_sound(
                    groups@[gi as int].checksum,
                    groups@[gi as int].members@,
                    ev,
                    rootdir_canon@,
                    quick,
                ));
            }
            let mut files: Vec<FilePath> = Vec::new();
            let mut k: usize = 0;
            while k < m
                invariant
                    0 <= k <= m,
                    0 <= gi < n,
                    n == groups@.len(),
                    ev == crate::scanner::entries_view(entries@),
                    dg == &groups@[gi as int],
                    m == dg.members@.len(),
                    files@.len() == k,
                    forall|k2: int|
                        0 <= k2 < dg.members@.len() ==> (#[trigger] dg.members@[k2])
                            < entries@.len(),
                    forall|k2: int|
                        0 <= k2 < k ==> (#[trigger] files@[k2])@ == filepath_of_entry(
                            ev[dg.members@[k2] as int],
                        ),
                decreases m - k,
            {
                let idx = dg.members[k];
                let e = &entries[idx];
                let link = match &e.link_target {
                    Some(t) => Some(t.clone()),
                    None => None,
                };
                let ghost oldfiles = files@;
                files.push(FilePath::new(e.path.clone(), e.is_symlink, link));
                proof {
                    assert(ev[idx as int] == entries@[idx as int]@);
                    assert(files@[k as int]@ == filepath_of_entry(ev[dg.members@[k as int] as int]));
                    assert(forall|k2: int| 0 <= k2 < k ==> files@[k2] == oldfiles[k2]);
                }
                k = k + 1;
            }
            proof {
                assert(fps_view(files@) =~= files_of_group(groups@[gi as int], ev));
            }
            let skip_this = skip_deduped && is_group_deduped(&files);
            if !skip_this {
                let ghost olddup = duplicates@;
                let ghost oldkept = kept;
                let ghost filesv = fps_view(files@);
                let g = Group { checksum: crate::hash::Checksum::new(dg.checksum), files };
                let ghost gview = g@;
                duplicates.push(g);
                proof {
                    assert forall|j: int|
                        #![auto]
                        0 <= j < gi implies (kept.contains(j) <==> !(skip_deduped && deduped_spec(
                        files_of_group(groups@[j], ev),
                    ))) by {}
                    kept = kept.push(gi as int);
                    assert(gview.files == filesv);
                    assert(filesv.len() == m);
                    assert(duplicates@[olddup.len() as int]@ == gview);
                    assert(duplicates@[olddup.len() as int]@.checksum == groups@[gi
                        as int].checksum);
                    assert(duplicates@[olddup.len() as int]@.files.len() >= 2);
                    assert forall|i: int|
                        0 <= i < groups_view(duplicates@).len() implies (#[trigger] groups_view(
                        duplicates@,
                    )[i]).files.len() >= 2 by {
                        assert(groups_view(duplicates@)[i] == duplicates@[i]@);
                        if i < olddup.len() {
                            assert(duplicates@[i] == olddup[i]);
                            assert(groups_view(olddup)[i] == olddup[i]@);
                        }
                    }
                    if skip_deduped {
                        assert(!deduped_spec(gview.files));
                        assert forall|i: int|
                            0 <= i < duplicates@.len() implies !deduped_spec(
                            (#[trigger] duplicates@[i]@).files,
                        ) by {
                            if i < olddup.len() {
                                assert(duplicates@[i] == olddup[i]);
                            }
                        }
                    }
                    assert forall|i: int, j: int|
                        0 <= i < j < duplicates@.len() implies (
                    #[trigger] duplicates@[i]@).checksum != (#[trigger] duplicates@[j]@).checksum
                        by {
                        if j < olddup.len() {
                            assert(duplicates@[i] == olddup[i]);
                            assert(duplicates@[j] == olddup[j]);
                        } else {
                            assert(duplicates@[i] == olddup[i]);
                            assert(olddup[i]@.checksum == groups@[oldkept[i]].checksum);
                            assert(oldkept[i] < gi);
                            assert(groups@[oldkept[i]].checksum != groups@[gi as int].checksum);
                        }
                    }
                    assert forall|i: int|
                        0 <= i < duplicates@.len() implies (#[trigger] duplicates@[i]@).checksum
                        == groups@[kept[i]].checksum && duplicates@[i]@.files == files_of_group(
                        groups@[kept[i]],
                        ev,
                    ) by {
                        if i < olddup.len() {
                            assert(duplicates@[i] == olddup[i]);
                            assert(kept[i] == oldkept[i]);
                        } else {
                            assert(kept[i] == gi as int);
                        }
                    }
                    assert forall|j: int|
                        #![auto]
                        0 <= j < gi + 1 implies (kept.contains(j) <==> !(skip_deduped
                        && deduped_spec(files_of_group(groups@[j], ev)))) by {
                        if j == gi {
                            assert(kept[oldkept.len() as int] == gi as int);
                            assert(kept.contains(j));
                            assert(!(skip_deduped && deduped_spec(
                                files_of_group(groups@[j], ev),
                            )));
                        } else {
                            assert(oldkept.contains(j) <==> !(skip_deduped && deduped_spec(
                                files_of_group(groups@[j], ev),
                            )));
                            if oldkept.contains(j) {
                                let i0 = choose|i0: int|
                                    0 <= i0 < oldkept.len() && oldkept[i0] == j;
                                assert(kept[i0] == j);
                                assert(kept.contains(j));
                            }
                            if kept.contains(j) {
                                let i0 = choose|i0: int| 0 <= i0 < kept.len() && kept[i0] == j;
                                assert(i0 < oldkept.len());
                                assert(oldkept[i0] == j);
                                assert(oldkept.contains(j));
                            }
                        }
                    }
                }
            } else {
                proof {
                    assert forall|j: int|
                        #![auto]
                        0 <= j < gi + 1 implies (kept.contains(j) <==> !(skip_deduped
                        && deduped_spec(files_of_group(groups@[j], ev)))) by {
                        if j == gi {
                            assert(!kept.contains(j)) by {
                                if kept.contains(j) {
                                    let i0 = choose|i0: int|
                                        0 <= i0 < kept.len() && kept[i0] == j;
                                    assert(kept[i0] < gi);
                                }
                            }
                            assert(deduped_spec(fps_view(files@)));
                            assert(deduped_spec(files_of_group(groups@[j], ev)));
                        } else {
                            assert(kept.contains(j) <==> !(skip_deduped && deduped_spec(
                                files_of_group(groups@[j], ev),
                            )));
                        }
                    }
                }
            }
            gi = gi + 1;
        }
        proof {
            assert(built_from_scan(
                groups_view(duplicates@),
                groups@,
                kept,
                ev,
                skip_deduped,
            )) by {
                assert(forall|i: int|
                    0 <= i < groups_view(duplicates@).len() ==> #[trigger] groups_view(
                        duplicates@,
                    )[i] == duplicates@[i]@);
            }
            assert(snapshot_from_scan(
                groups_view(duplicates@),
                ev,
                rootdir_canon@,
                quick,
                skip_deduped,
            ));
        }
        Snapshot { rootdir: String::from_str(rootdir), generated_at, duplicates }
    }

    /// Validates the snapshot against the observed filesystem view.
    pub fn validate(&self, is_full_deletion_allowed: bool, view: &crate::fsview::FsView) -> (r:
        Result<Vec<crate::executor::Action>, crate::error::AppError>)
        ensures
            match r {
                Ok(actions) => crate::snapshot::validation::validate_spec(
                    self@,
                    is_full_deletion_allowed,
                    view@,
                ) == Ok::<Seq<crate::executor::ActionV>, crate::snapshot::validation::ErrV>(
                    crate::executor::actions_view(actions@),
                ),
                Err(e) => crate::snapshot::validation::validate_spec(
                    self@,
                    is_full_deletion_allowed,
                    view@,
                ) matches Err(ev) && (e matches crate::error::AppError::SnapshotValidation(ve)
                    && crate::snapshot::validation::error_matches(ve, ev)),
            },
    {
        match crate::snapshot::validation::validate(self, is_full_deletion_allowed, view) {
            Ok(actions) => Ok(actions),
            Err(e) => Err(crate::error::AppError::SnapshotValidation(e)),
        }
    }
}

} // verus!
