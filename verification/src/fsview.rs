//! A pure view of the filesystem state the tool acts on.
//!
//! The validator and the renderer never touch the disk themselves: the
//! caller probes every path of interest once and hands the observations
//! over as an `FsView`. A path absent from the view reads as missing.

use vstd::prelude::*;
use crate::strutil::str_eq;

verus! {

/// What one probe of a path observed.
///
/// `link_target` is the stored link text of a symlink (unresolved);
/// `canonical` is the fully resolved form of the path, when resolution
/// succeeds; `checksum` is the content fingerprint of the file the path
/// leads to, when it can be read; `size` is the length from metadata,
/// zero when unknown.
#[derive(Debug, Clone, PartialEq, Eq)]
pub struct PathState {
    pub exists: bool,
    pub is_symlink: bool,
    pub is_file: bool,
    pub link_target: Option<String>,
    pub canonical: Option<String>,
    pub checksum: Option<u64>,
    pub size: u64,
}

/// The view of a `PathState`.
pub struct PathStateV {
    pub exists: bool,
    pub is_symlink: bool,
    pub is_file: bool,
    pub link_target: Option<Seq<char>>,
    pub canonical: Option<Seq<char>>,
    pub checksum: Option<u64>,
    pub size: u64,
}

impl View for PathState {
    type V = PathStateV;

    open spec fn view(&self) -> PathStateV {
        PathStateV {
            exists: self.exists,
            is_symlink: self.is_symlink,
            is_file: self.is_file,
            link_target: match &self.link_target {
                Some(s) => Some(s@),
                None => None,
            },
            canonical: match &self.canonical {
                Some(s) => Some(s@),
                None => None,
            },
            checksum: self.checksum,
            size: self.size,
        }
    }
}

/// The state of a path nothing was observed about: missing.
pub open spec fn missing_state() -> PathStateV {
    PathStateV {
        exists: false,
        is_symlink: false,
        is_file: false,
        link_target: None,
        canonical: None,
        checksum: None,
        size: 0,
    }
}

impl PathState {
    /// A state for a path that does not exist.
    pub fn missing() -> (r: PathState)
        ensures
            r@ == missing_state(),
    {
        PathState {
            exists: false,
            is_symlink: false,
            is_file: false,
            link_target: None,
            canonical: None,
            checksum: None,
            size: 0,
        }
    }

    /// A copy of this state.
    pub fn duplicate(&self) -> (r: PathState)
        ensures
            r@ == self@,
    {
        PathState {
            exists: self.exists,
            is_symlink: self.is_symlink,
            is_file: self.is_file,
            link_target: match &self.link_target {
                Some(s) => Some(s.clone()),
                None => None,
            },
            canonical: match &self.canonical {
                Some(s) => Some(s.clone()),
                None => None,
            },
            checksum: self.checksum,
            size: self.size,
        }
    }
}

/// One observed path with its state.
#[derive(Debug, Clone, PartialEq, Eq)]
pub struct FsEntry {
    pub path: String,
    pub state: PathState,
}

/// The view of an entry.
pub struct FsEntryV {
    pub path: Seq<char>,
    pub state: PathStateV,
}

impl View for FsEntry {
    type V = FsEntryV;

    open spec fn view(&self) -> FsEntryV {
        FsEntryV { path: self.path@, state: self.state@ }
    }
}

/// The observed filesystem: a list of probed paths. The first entry for
/// a path wins.
#[derive(Debug, Clone, PartialEq, Eq)]
pub struct FsView {
    pub entries: Vec<FsEntry>,
}

/// The view of an `FsView`.
pub open spec fn entries_view(s: Seq<FsEntry>) -> Seq<FsEntryV> {
    s.map_values(|e: FsEntry| e@)
}

impl View for FsView {
    type V = Seq<FsEntryV>;

    open spec fn view(&self) -> Seq<FsEntryV> {
        entries_view(self.entries@)
    }
}

/// The state recorded for `path`, or the missing state when `path` was
/// not probed.
pub open spec fn stat_spec(v: Seq<FsEntryV>, path: Seq<char>) -> PathStateV
    decreases v.len(),
{
    if v.len() == 0 {
        missing_state()
    } else if v[0].path == path {
        v[0].state
    } else {
        stat_spec(v.drop_first(), path)
    }
}

impl FsView {
    /// An empty view.
    pub fn new() -> (r: FsView)
        ensures
            r@.len() == 0,
    {
        FsView { entries: Vec::new() }
    }

    /// Records an observation. Earlier observations of the same path
    /// win.
    pub fn add(&mut self, path: String, state: PathState)
        ensures
            final(self)@ == old(self)@.push(FsEntryV { path: path@, state: state@ }),
    {
        let ghost oldv = self@;
        self.entries.push(FsEntry { path, state });
        proof {
            assert(self@ =~= oldv.push(FsEntryV { path: self.entries@.last().path@, state: self.entries@.last().state@ }));
        }
    }

    /// Looks a path up in the view.
    pub fn stat(&self, path: &str) -> (r: PathState)
        ensures
            r@ == stat_spec(self@, path@),
    {
        let n = self.entries.len();
        let mut i: usize = 0;
        proof {
            assert(self@.skip(0) == self@);
        }
        while i < n
            invariant
                0 <= i <= n,
                n == self.entries@.len(),
                stat_spec(self@, path@) == stat_spec(self@.skip(i as int), path@),
            decreases n - i,
        {
            proof {
                assert(self@.skip(i as int)[0] == self.entries@[i as int]@);
                assert(self@.skip(i as int).drop_first() =~= self@.skip(i + 1));
            }
            if str_eq(self.entries[i].path.as_str(), path) {
                return self.entries[i].state.duplicate();
            }
            i = i + 1;
        }
        proof {
            assert(self@.skip(n as int) =~= Seq::<FsEntryV>::empty());
        }
        PathState::missing()
    }
}

} // verus!
