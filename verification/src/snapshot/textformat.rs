//! The snapshot text format: a line-oriented document with five line
//! kinds — blank, comment, metadata, checksum, path-info — rendered from
//! a snapshot and parsed back from an edited copy.

use vstd::prelude::*;
use vstd::string::*;
use crate::error::AppError;
use crate::fileutil::{
    clean_path, first_idx, normalize_path, normalize_path_spec, seg_views, spec_is_absolute,
    strictly_under, strip_prefix_spec, within_root_spec,
};
use crate::fsview::{FsEntryV, FsView, stat_spec};
use crate::hash::Checksum;
use crate::snapshot::{
    decode_op_spec, find_keeper, fps_view, groups_view, is_keep, lemma_min_keep_path,
    min_keep_path, FileOp, FileOpV, FilePath, FilePathV, Group, GroupV, Snapshot, SnapshotV,
};
use crate::strutil::{
    arrow_at, arrow_free, char_is_ws, dec_rep, dec_val, drop_leading_ws, find_arrow, find_char,
    is_digits, is_ws, lemma_drop_leading_ws_skip, lemma_ws_count, seq_le, substring, trim,
    trim_spec, ws_count,
};

verus! {

/// One line of the text format.
#[derive(Debug, PartialEq, Eq)]
pub enum Line {
    Comment(String),
    MetaData { key: String, val: String },
    Checksum(String),
    PathInfo { path: String, op: String, delim: Option<String>, extra: Option<String> },
    Blank,
}

/// The view of a `Line`.
pub enum LineV {
    Comment(Seq<char>),
    MetaData { key: Seq<char>, val: Seq<char> },
    Checksum(Seq<char>),
    PathInfo {
        path: Seq<char>,
        op: Seq<char>,
        delim: Option<Seq<char>>,
        extra: Option<Seq<char>>,
    },
    Blank,
}

impl View for Line {
    type V = LineV;

    open spec fn view(&self) -> LineV {
        match self {
            Line::Comment(c) => LineV::Comment(c@),
            Line::MetaData { key, val } => LineV::MetaData { key: key@, val: val@ },
            Line::Checksum(h) => LineV::Checksum(h@),
            Line::PathInfo { path, op, delim, extra } => LineV::PathInfo {
                path: path@,
                op: op@,
                delim: match delim {
                    Some(d) => Some(d@),
                    None => None,
                },
                extra: match extra {
                    Some(x) => Some(x@),
                    None => None,
                },
            },
            Line::Blank => LineV::Blank,
        }
    }
}

/// The text of an encoded line.
pub open spec fn encode_spec(l: LineV) -> Seq<char> {
    match l {
        LineV::Comment(c) => "# "@ + c,
        LineV::MetaData { key, val } => "#! "@ + key + ": "@ + val,
        LineV::Checksum(h) => "["@ + h + "]"@,
        LineV::PathInfo { path, op, delim, extra } => match (delim, extra) {
            (Some(d), Some(x)) => op + " "@ + path + " "@ + d + " "@ + x,
            (Some(d), None) => op + " "@ + path + " "@ + d + " "@,
            (None, Some(x)) => op + " "@ + path,
            (None, None) => op + " "@ + path,
        },
        LineV::Blank => Seq::empty(),
    }
}

/// Index of the first `->` occurrence, or `s.len()` when there is none.
pub open spec fn arrow_idx(s: Seq<char>) -> int
    decreases s.len(),
{
    if arrow_at(s, 0) {
        0
    } else if s.len() == 0 {
        0
    } else {
        1 + arrow_idx(s.drop_first())
    }
}

proof fn lemma_arrow_idx(s: Seq<char>, k: int)
    requires
        0 <= k <= s.len(),
        forall|j: int| 0 <= j < k ==> !arrow_at(s, j),
        k == s.len() || arrow_at(s, k),
    ensures
        arrow_idx(s) == k,
    decreases k,
{
    if s.len() == 0 {
    } else if k == 0 {
    } else {
        assert(!arrow_at(s, 0));
        assert forall|j: int| 0 <= j < k - 1 implies !arrow_at(s.drop_first(), j) by {
            assert(!arrow_at(s, j + 1));
        }
        if k < s.len() {
            assert(arrow_at(s.drop_first(), k - 1));
        }
        lemma_arrow_idx(s.drop_first(), k - 1);
    }
}

/// Splits on each occurrence of the `->` token.
pub open spec fn split_arrow(s: Seq<char>) -> Seq<Seq<char>>
    decreases s.len(),
{
    let i = arrow_idx(s);
    if 0 <= i && i + 2 <= s.len() && arrow_at(s, i) {
        seq![s.take(i)] + split_arrow(s.skip(i + 2))
    } else {
        seq![s]
    }
}

/// Trims each piece and drops the empty ones.
pub open spec fn parts_of(pieces: Seq<Seq<char>>) -> Seq<Seq<char>>
    decreases pieces.len(),
{
    if pieces.len() == 0 {
        Seq::empty()
    } else {
        let rest = parts_of(pieces.drop_first());
        let h = trim_spec(pieces[0]);
        if h.len() > 0 {
            seq![h] + rest
        } else {
            rest
        }
    }
}

/// The parts of a `symlink` remainder: split on `->`, trimmed, empties
/// dropped.
pub open spec fn parts_spec(s: Seq<char>) -> Seq<Seq<char>> {
    parts_of(split_arrow(s))
}

/// Decodes an already-trimmed line.
pub open spec fn decode_trimmed(t: Seq<char>) -> Result<LineV, ()> {
    if t.len() == 0 {
        Ok(LineV::Blank)
    } else if t[0] == '#' {
        if t.len() == 1 {
            Ok(LineV::Comment(Seq::empty()))
        } else if t[1] == '!' {
            let rest = t.skip(2);
            let ci = first_idx(rest, ':');
            if ci >= rest.len() || ci < 1 {
                Err(())
            } else {
                let w = ws_count(rest);
                let kstart = if w < ci {
                    w
                } else {
                    ci - 1
                };
                let key = rest.subrange(kstart, ci);
                let val = drop_leading_ws(rest.skip(ci + 1));
                if val.len() == 0 {
                    Err(())
                } else {
                    Ok(LineV::MetaData { key, val })
                }
            }
        } else if is_ws(t[1]) && t.len() >= 3 {
            Ok(LineV::Comment(t.skip(2)))
        } else {
            Err(())
        }
    } else if t[0] == '[' {
        let rest = t.skip(1);
        let ci = first_idx(rest, ']');
        if ci >= rest.len() || ci < 1 {
            Err(())
        } else {
            Ok(LineV::Checksum(rest.take(ci)))
        }
    } else if t.len() >= 6 && t.take(4) == "keep"@ && is_ws(t[4]) {
        Ok(LineV::PathInfo { path: t.skip(5), op: "keep"@, delim: None, extra: None })
    } else if t.len() >= 9 && t.take(7) == "symlink"@ && is_ws(t[7]) {
        let parts = parts_spec(t.skip(8));
        if parts.len() == 2 {
            Ok(
                LineV::PathInfo {
                    path: parts[0],
                    op: "symlink"@,
                    delim: Some("->"@),
                    extra: Some(parts[1]),
                },
            )
        } else if parts.len() == 1 {
            Ok(
                LineV::PathInfo {
                    path: parts[0],
                    op: "symlink"@,
                    delim: Some("->"@),
                    extra: None,
                },
            )
        } else {
            Err(())
        }
    } else if t.len() >= 8 && t.take(6) == "delete"@ && is_ws(t[6]) {
        Ok(LineV::PathInfo { path: t.skip(7), op: "delete"@, delim: None, extra: None })
    } else {
        Err(())
    }
}

/// Decodes a raw line: classification happens on the trimmed text.
pub open spec fn decode_spec(s: Seq<char>) -> Result<LineV, ()> {
    decode_trimmed(trim_spec(s))
}

fn split_arrow_exec(s: &str, from: usize) -> (r: Vec<String>)
    requires
        from <= s@.len(),
    ensures
        seg_views(r@) == split_arrow(s@.skip(from as int)),
    decreases s@.len() - from,
{
    let ghost t = s@.skip(from as int);
    let n = s.unicode_len();
    match find_arrow(s, from) {
        None => {
            proof {
                assert forall|j: int| 0 <= j < t.len() implies !arrow_at(t, j) by {
                    assert(!arrow_at(s@, from + j));
                    if 0 <= j && j + 2 <= t.len() {
                        assert(t[j] == s@[from + j]);
                        assert(t[j + 1] == s@[from + j + 1]);
                    }
                }
                lemma_arrow_idx(t, t.len() as int);
            }
            let piece = substring(s, from, n);
            let mut r: Vec<String> = Vec::new();
            r.push(piece);
            proof {
                assert(seg_views(r@) =~= seq![t]);
            }
            r
        },
        Some(i) => {
            proof {
                assert forall|j: int| 0 <= j < i - from implies !arrow_at(t, j) by {
                    assert(!arrow_at(s@, from + j));
                    if 0 <= j && j + 2 <= t.len() {
                        assert(t[j] == s@[from + j]);
                        assert(t[j + 1] == s@[from + j + 1]);
                    }
                }
                assert(t[i - from] == s@[i as int]);
                assert(t[i - from + 1] == s@[i + 1]);
                assert(arrow_at(t, i - from));
                lemma_arrow_idx(t, i - from);
            }
            let piece = substring(s, from, i);
            let mut rest = split_arrow_exec(s, i + 2);
            rest.insert(0, piece);
            proof {
                assert(t.take(i - from) =~= s@.subrange(from as int, i as int));
                assert(t.skip(i - from + 2) =~= s@.skip(i + 2));
                assert(seg_views(rest@) =~= seq![t.take(i - from)] + split_arrow(s@.skip(i + 2)));
            }
            rest
        },
    }
}

fn parts_from(raw: &Vec<String>, k: usize) -> (r: Vec<String>)
    requires
        k <= raw@.len(),
    ensures
        seg_views(r@) == parts_of(seg_views(raw@).skip(k as int)),
    decreases raw@.len() - k,
{
    if k == raw.len() {
        let r: Vec<String> = Vec::new();
        proof {
            assert(seg_views(raw@).skip(k as int) =~= Seq::<Seq<char>>::empty());
            assert(seg_views(r@) =~= Seq::<Seq<char>>::empty());
        }
        r
    } else {
        let mut rest = parts_from(raw, k + 1);
        let h = trim(raw[k].as_str());
        proof {
            assert(seg_views(raw@).skip(k as int).drop_first() =~= seg_views(raw@).skip(k + 1));
            assert(seg_views(raw@).skip(k as int)[0] == raw@[k as int]@);
        }
        if h.unicode_len() > 0 {
            let piece = String::from_str(h);
            rest.insert(0, piece);
            proof {
                assert(seg_views(rest@) =~= seq![trim_spec(raw@[k as int]@)] + parts_of(
                    seg_views(raw@).skip(k + 1),
                ));
            }
            rest
        } else {
            rest
        }
    }
}

/// Splits a `symlink` remainder into its parts: pieces between `->`
/// tokens, trimmed, empties dropped.
pub fn arrow_parts(s: &str) -> (r: Vec<String>)
    ensures
        seg_views(r@) == parts_spec(s@),
{
    let raw = split_arrow_exec(s, 0);
    proof {
        assert(s@.skip(0) == s@);
    }
    let r = parts_from(&raw, 0);
    proof {
        assert(seg_views(raw@).skip(0) == seg_views(raw@));
    }
    r
}

impl Line {
    /// Encodes the line as text.
    pub fn encode(&self) -> (r: String)
        ensures
            r@ == encode_spec(self@),
    {
        match self {
            Line::Comment(comment) => {
                String::from_str("# ").concat(comment.as_str())
            },
            Line::MetaData { key, val } => {
                let r = String::from_str("#! ").concat(key.as_str()).concat(": ").concat(
                    val.as_str(),
                );
                proof {
                    assert(r@ =~= "#! "@ + key@ + ": "@ + val@);
                }
                r
            },
            Line::Checksum(hash) => {
                let r = String::from_str("[").concat(hash.as_str()).concat("]");
                proof {
                    assert(r@ =~= "["@ + hash@ + "]"@);
                }
                r
            },
            Line::PathInfo { path, op, delim, extra } => {
                match (delim, extra) {
                    (Some(d), Some(x)) => {
                        let r = String::from_str(op.as_str()).concat(" ").concat(
                            path.as_str(),
                        ).concat(" ").concat(d.as_str()).concat(" ").concat(x.as_str());
                        proof {
                            assert(r@ =~= op@ + " "@ + path@ + " "@ + d@ + " "@ + x@);
                        }
                        r
                    },
                    (Some(d), None) => {
                        let r = String::from_str(op.as_str()).concat(" ").concat(
                            path.as_str(),
                        ).concat(" ").concat(d.as_str()).concat(" ");
                        proof {
                            assert(r@ =~= op@ + " "@ + path@ + " "@ + d@ + " "@);
                        }
                        r
                    },
                    (None, _) => {
                        let r = String::from_str(op.as_str()).concat(" ").concat(path.as_str());
                        proof {
                            assert(r@ =~= op@ + " "@ + path@);
                        }
                        r
                    },
                }
            },
            Line::Blank => String::new(),
        }
    }

    /// Decodes one line of text. Fails exactly on text no line kind
    /// accepts.
    pub fn decode(s: &str) -> (r: Result<Line, AppError>)
        ensures
            match r {
                Ok(l) => decode_spec(s@) == Ok::<LineV, ()>(l@),
                Err(e) => decode_spec(s@) is Err && e == AppError::SnapshotParsing,
            },
    {
        let t = trim(s);
        let n = t.unicode_len();
        if n == 0 {
            return Ok(Line::Blank);
        }
        let c0 = t.get_char(0);
        if c0 == '#' {
            if n == 1 {
                return Ok(Line::Comment(String::new()));
            }
            let c1 = t.get_char(1);
            if c1 == '!' {
                let ghost rest = t@.skip(2);
                match find_char(t, 2, ':') {
                    None => {
                        proof {
                            assert forall|j: int| 0 <= j < rest.len() implies rest[j] != ':' by {
                                assert(rest[j] == t@[j + 2]);
                            }
                            crate::fileutil::lemma_first_idx(rest, ':', rest.len() as int);
                        }
                        Err(AppError::SnapshotParsing)
                    },
                    Some(ci) => {
                        proof {
                            assert forall|j: int| 0 <= j < ci - 2 implies rest[j] != ':' by {
                                assert(rest[j] == t@[j + 2]);
                            }
                            assert(rest[ci - 2] == t@[ci as int]);
                            crate::fileutil::lemma_first_idx(rest, ':', ci - 2);
                        }
                        if ci == 2 {
                            return Err(AppError::SnapshotParsing);
                        }
                        let mut w: usize = 2;
                        while w < ci && char_is_ws(t.get_char(w))
                            invariant
                                2 <= w <= ci < n,
                                n == t@.len(),
                                rest == t@.skip(2),
                                t@[ci as int] == ':',
                                forall|j: int| 0 <= j < w - 2 ==> is_ws(rest[j]),
                            decreases ci - w,
                        {
                            proof {
                                assert(rest[w - 2] == t@[w as int]);
                            }
                            w = w + 1;
                        }
                        proof {
                            if w < ci {
                                assert(rest[w - 2] == t@[w as int]);
                                lemma_ws_count(rest, w - 2);
                            } else {
                                assert(rest[w - 2] == t@[ci as int]);
                                lemma_ws_count(rest, w - 2);
                            }
                        }
                        let kstart = if w < ci {
                            w
                        } else {
                            ci - 1
                        };
                        let key = substring(t, kstart, ci);
                        proof {
                            assert(t@.subrange(kstart as int, ci as int) =~= rest.subrange(
                                kstart - 2,
                                ci - 2,
                            ));
                        }
                        let mut v: usize = ci + 1;
                        while v < n && char_is_ws(t.get_char(v))
                            invariant
                                ci + 1 <= v <= n,
                                n == t@.len(),
                                forall|j: int| ci + 1 <= j < v ==> is_ws(t@[j]),
                            decreases n - v,
                        {
                            v = v + 1;
                        }
                        proof {
                            let tail = rest.skip(ci - 2 + 1);
                            assert(tail =~= t@.skip(ci + 1));
                            assert forall|j: int| 0 <= j < v - ci - 1 implies is_ws(tail[j]) by {
                                assert(tail[j] == t@[ci + 1 + j]);
                            }
                            if v < n {
                                assert(tail[v - ci - 1] == t@[v as int]);
                            }
                            lemma_drop_leading_ws_skip(tail, v - ci - 1);
                            assert(tail.skip(v - ci - 1) =~= t@.skip(v as int));
                        }
                        if v == n {
                            return Err(AppError::SnapshotParsing);
                        }
                        let val = substring(t, v, n);
                        proof {
                            assert(t@.subrange(v as int, n as int) =~= t@.skip(v as int));
                        }
                        Ok(Line::MetaData { key, val })
                    },
                }
            } else {
                if char_is_ws(c1) && n >= 3 {
                    let c = substring(t, 2, n);
                    proof {
                        assert(t@.subrange(2, n as int) =~= t@.skip(2));
                    }
                    Ok(Line::Comment(c))
                } else {
                    Err(AppError::SnapshotParsing)
                }
            }
        } else if c0 == '[' {
            let ghost rest = t@.skip(1);
            match find_char(t, 1, ']') {
                None => {
                    proof {
                        assert forall|j: int| 0 <= j < rest.len() implies rest[j] != ']' by {
                            assert(rest[j] == t@[j + 1]);
                        }
                        crate::fileutil::lemma_first_idx(rest, ']', rest.len() as int);
                    }
                    Err(AppError::SnapshotParsing)
                },
                Some(ci) => {
                    proof {
                        assert forall|j: int| 0 <= j < ci - 1 implies rest[j] != ']' by {
                            assert(rest[j] == t@[j + 1]);
                        }
                        assert(rest[ci - 1] == t@[ci as int]);
                        crate::fileutil::lemma_first_idx(rest, ']', ci - 1);
                    }
                    if ci == 1 {
                        Err(AppError::SnapshotParsing)
                    } else {
                        let h = substring(t, 1, ci);
                        proof {
                            assert(t@.subrange(1, ci as int) =~= rest.take(ci - 1));
                        }
                        Ok(Line::Checksum(h))
                    }
                },
            }
        } else {
            if n >= 6 && str_eq_prefix(t, "keep", 4) && char_is_ws(t.get_char(4)) {
                let p = substring(t, 5, n);
                proof {
                    assert(t@.subrange(5, n as int) =~= t@.skip(5));
                }
                Ok(
                    Line::PathInfo {
                        path: p,
                        op: String::from_str("keep"),
                        delim: None,
                        extra: None,
                    },
                )
            } else if n >= 9 && str_eq_prefix(t, "symlink", 7) && char_is_ws(t.get_char(7)) {
                let rem = t.substring_char(8, n);
                proof {
                    assert(rem@ =~= t@.skip(8));
                }
                let mut parts = arrow_parts(rem);
                if parts.len() == 2 {
                    let x = match parts.pop() {
                        Some(x) => x,
                        None => String::new(),
                    };
                    let p = match parts.pop() {
                        Some(p) => p,
                        None => String::new(),
                    };
                    proof {
                        assert(p@ == parts_spec(t@.skip(8))[0]);
                        assert(x@ == parts_spec(t@.skip(8))[1]);
                    }
                    Ok(
                        Line::PathInfo {
                            path: p,
                            op: String::from_str("symlink"),
                            delim: Some(String::from_str("->")),
                            extra: Some(x),
                        },
                    )
                } else if parts.len() == 1 {
                    let p = match parts.pop() {
                        Some(p) => p,
                        None => String::new(),
                    };
                    proof {
                        assert(p@ == parts_spec(t@.skip(8))[0]);
                    }
                    Ok(
                        Line::PathInfo {
                            path: p,
                            op: String::from_str("symlink"),
                            delim: Some(String::from_str("->")),
                            extra: None,
                        },
                    )
                } else {
                    Err(AppError::SnapshotParsing)
                }
            } else if n >= 8 && str_eq_prefix(t, "delete", 6) && char_is_ws(t.get_char(6)) {
                let p = substring(t, 7, n);
                proof {
                    assert(t@.subrange(7, n as int) =~= t@.skip(7));
                }
                Ok(
                    Line::PathInfo {
                        path: p,
                        op: String::from_str("delete"),
                        delim: None,
                        extra: None,
                    },
                )
            } else {
                Err(AppError::SnapshotParsing)
            }
        }
    }

    /// Builds the path-info line for one snapshot entry: the path is
    /// rendered relative to the root, the operation keyword and the
    /// symlink source (exactly as stored) follow.
    pub fn pathinfo(filepath: &FilePath, rootdir: &str) -> (r: Line)
        requires
            spec_is_absolute(filepath.path@) ==> within_root_spec(rootdir@, filepath.path@),
        ensures
            r@ == pathinfo_spec(filepath@, rootdir@),
    {
        let rel = match normalize_path(filepath.path.as_str(), true, rootdir) {
            Ok(p) => p,
            Err(_) => filepath.path.clone(),
        };
        let op = String::from_str(filepath.op.keyword());
        match &filepath.op {
            FileOp::Symlink { source } => {
                let extra = match source {
                    Some(s) => Some(s.clone()),
                    None => None,
                };
                Line::PathInfo { path: rel, op, delim: Some(String::from_str("->")), extra }
            },
            FileOp::Keep => Line::PathInfo { path: rel, op, delim: None, extra: None },
            FileOp::Delete => Line::PathInfo { path: rel, op, delim: None, extra: None },
        }
    }
}

/// The path-info line for one snapshot entry.
pub open spec fn pathinfo_spec(fp: FilePathV, rootdir: Seq<char>) -> LineV {
    let rel = match normalize_path_spec(fp.path, true, rootdir) {
        Some(p) => p,
        None => fp.path,
    };
    match fp.op {
        FileOpV::Symlink { source } => LineV::PathInfo {
            path: rel,
            op: "symlink"@,
            delim: Some("->"@),
            extra: source,
        },
        FileOpV::Keep => LineV::PathInfo { path: rel, op: "keep"@, delim: None, extra: None },
        FileOpV::Delete => LineV::PathInfo { path: rel, op: "delete"@, delim: None, extra: None },
    }
}

/// Compares the first `k` characters of `t` with `lit`.
fn str_eq_prefix(t: &str, lit: &str, k: usize) -> (r: bool)
    requires
        k <= t@.len(),
    ensures
        r == (t@.take(k as int) == lit@),
{
    let sub = t.substring_char(0, k);
    proof {
        assert(t@.subrange(0, k as int) =~= t@.take(k as int));
    }
    crate::strutil::str_eq(sub, lit)
}

/// Whether a string is a well-formed RFC 2822 timestamp.
pub uninterp spec fn rfc2822_ok(s: Seq<char>) -> bool;

/// Relies on chrono's DateTime::parse_from_rfc2822: whether the text
/// parses depends on the text alone.
#[verifier::external_body]
pub fn rfc2822_valid(s: &str) -> (r: bool)
    ensures
        r == rfc2822_ok(s@),
{
    chrono::DateTime::parse_from_rfc2822(s).is_ok()
}

/// The sort key of a group: the size on disk of its keeper, zero when
/// there is no keeper or no record of it.
pub open spec fn group_size_spec(g: GroupV, view: Seq<FsEntryV>) -> u64 {
    match min_keep_path(g.files) {
        None => 0u64,
        Some(p) => stat_spec(view, p).size,
    }
}

/// Computes a group's sort key.
pub fn group_size(g: &Group, view: &FsView) -> (r: u64)
    ensures
        r == group_size_spec(g@, view@),
{
    proof {
        lemma_min_keep_path(fps_view(g.files@));
        assert forall|j: int| 0 <= j < g.files@.len() implies fps_view(g.files@)[j] == g.files@[j]@
            by {}
    }
    match find_keeper(&g.files) {
        None => 0,
        Some(i) => {
            proof {
                let s = fps_view(g.files@);
                match min_keep_path(s) {
                    None => {
                        let jx = choose|jx: int|
                            0 <= jx < g.files@.len() && is_keep(#[trigger] g.files@[jx]@) && g
                                .files@[jx]@.path == g.files@[i as int]@.path;
                        assert(is_keep(s[jx]));
                        assert(false);
                    },
                    Some(p) => {
                        let jx = choose|jx: int|
                            0 <= jx < g.files@.len() && is_keep(#[trigger] g.files@[jx]@) && g
                                .files@[jx]@.path == g.files@[i as int]@.path;
                        assert(is_keep(s[jx]) && s[jx].path == s[i as int].path);
                        assert(seq_le(p, s[jx].path));
                        let jp = choose|jp: int|
                            0 <= jp < s.len() && is_keep(#[trigger] s[jp]) && s[jp].path == p;
                        assert(is_keep(g.files@[jp]@));
                        assert(seq_le(g.files@[i as int]@.path, g.files@[jp]@.path));
                        crate::strutil::lemma_seq_le_antisym(p, s[i as int].path);
                        assert(stat_spec(view@, g.files@[i as int]@.path).size == group_size_spec(
                            g@,
                            view@,
                        ));
                    },
                }
            }
            view.stat(g.files[i].path.as_str()).size
        },
    }
}

/// Descending order by group sort key.
pub open spec fn sorted_by_size(gs: Seq<GroupV>, view: Seq<FsEntryV>) -> bool {
    forall|i: int, j: int|
        0 <= i < j < gs.len() ==> group_size_spec(#[trigger] gs[i], view) >= group_size_spec(
            #[trigger] gs[j],
            view,
        )
}

/// `sorted` is `orig` rearranged through the index list `perm`: a
/// bijection onto the original positions that keeps the original order
/// among groups of equal sort key.
pub open spec fn stable_arrangement(
    sorted: Seq<GroupV>,
    orig: Seq<GroupV>,
    view: Seq<FsEntryV>,
    perm: Seq<int>,
) -> bool {
    &&& perm.len() == sorted.len()
    &&& sorted.len() == orig.len()
    &&& forall|i: int| 0 <= i < perm.len() ==> 0 <= #[trigger] perm[i] < orig.len()
    &&& forall|i: int, j: int|
        0 <= i < j < perm.len() ==> #[trigger] perm[i] != #[trigger] perm[j]
    &&& forall|i: int| 0 <= i < sorted.len() ==> #[trigger] sorted[i] == orig[perm[i]]
    &&& forall|i: int, j: int|
        0 <= i < j < sorted.len() && group_size_spec(#[trigger] sorted[i], view)
            == group_size_spec(#[trigger] sorted[j], view) ==> perm[i] < perm[j]
}

/// Sorts the duplicate groups by descending keeper size; the result is
/// a rearrangement of the snapshot's groups in which groups of equal
/// keeper size keep their original order.
pub fn sorted_groups(snap: &Snapshot, view: &FsView) -> (r: Vec<Group>)
    ensures
        groups_view(r@).to_multiset() == groups_view(snap.duplicates@).to_multiset(),
        sorted_by_size(groups_view(r@), view@),
        exists|perm: Seq<int>|
            stable_arrangement(groups_view(r@), groups_view(snap.duplicates@), view@, perm),
{
    broadcast use vstd::seq_lib::to_multiset_build, vstd::seq_lib::to_multiset_insert,
        vstd::multiset::group_multiset_axioms;

    let n = snap.duplicates.len();
    let mut out: Vec<Group> = Vec::new();
    let ghost mut perm: Seq<int> = Seq::empty();
    let mut gi: usize = 0;
    proof {
        assert(groups_view(snap.duplicates@).take(0) =~= Seq::<GroupV>::empty());
        assert(groups_view(out@) =~= Seq::<GroupV>::empty());
        assert(groups_view(out@).to_multiset() =~= groups_view(
            snap.duplicates@,
        ).take(0).to_multiset());
        assert(stable_arrangement(
            groups_view(out@),
            groups_view(snap.duplicates@).take(0),
            view@,
            perm,
        ));
    }
    while gi < n
        invariant
            0 <= gi <= n,
            n == snap.duplicates@.len(),
            groups_view(out@).to_multiset() == groups_view(snap.duplicates@).take(
                gi as int,
            ).to_multiset(),
            sorted_by_size(groups_view(out@), view@),
            stable_arrangement(
                groups_view(out@),
                groups_view(snap.duplicates@).take(gi as int),
                view@,
                perm,
            ),
        decreases n - gi,
    {
        let g = snap.duplicates[gi].duplicate();
        let k = group_size(&g, view);
        let m = out.len();
        let mut pos: usize = 0;
        while pos < m && group_size(&out[pos], view) >= k
            invariant
                0 <= pos <= m,
                m == out@.len(),
                k == group_size_spec(g@, view@),
                forall|j: int|
                    0 <= j < pos ==> group_size_spec(#[trigger] groups_view(out@)[j], view@) >= k,
            decreases m - pos,
        {
            proof {
                assert(groups_view(out@)[pos as int] == out@[pos as int]@);
            }
            pos = pos + 1;
        }
        let ghost oldout = groups_view(out@);
        let ghost gv = g@;
        out.insert(pos, g);
        proof {
            assert(groups_view(out@) =~= oldout.insert(pos as int, gv));
            vstd::seq_lib::to_multiset_insert(oldout, pos as int, gv);
            let dups = groups_view(snap.duplicates@);
            assert(dups.take(gi + 1) =~= dups.take(gi as int).push(dups[gi as int]));
            vstd::seq_lib::to_multiset_build(dups.take(gi as int), dups[gi as int]);
            assert(dups.take(gi as int).push(dups[gi as int]).to_multiset() =~= dups.take(
                gi as int,
            ).to_multiset().insert(dups[gi as int]));
            assert(groups_view(out@).to_multiset() =~= dups.take(gi + 1).to_multiset());
            let oldperm = perm;
            perm = perm.insert(pos as int, gi as int);
            assert(stable_arrangement(groups_view(out@), dups.take(gi + 1), view@, perm)) by {
                let newv = groups_view(out@);
                let orig = dups.take(gi + 1);
                assert(newv[pos as int] == gv);
                assert(gv == dups[gi as int]);
                assert forall|i: int| 0 <= i < newv.len() implies #[trigger] newv[i]
                    == orig[perm[i]] by {
                    if i < pos {
                        assert(newv[i] == oldout[i]);
                        assert(perm[i] == oldperm[i]);
                        assert(oldout[i] == dups.take(gi as int)[oldperm[i]]);
                    } else if i == pos {
                        assert(perm[i] == gi as int);
                    } else {
                        assert(newv[i] == oldout[i - 1]);
                        assert(perm[i] == oldperm[i - 1]);
                        assert(oldout[i - 1] == dups.take(gi as int)[oldperm[i - 1]]);
                    }
                }
                assert forall|i: int, j: int|
                    0 <= i < j < perm.len() implies #[trigger] perm[i] != #[trigger] perm[j] by {
                    if i < pos && j < pos {
                        assert(perm[i] == oldperm[i] && perm[j] == oldperm[j]);
                    } else if i < pos && j == pos {
                        assert(perm[i] == oldperm[i] && perm[j] == gi as int);
                        assert(oldperm[i] < gi);
                    } else if i < pos && j > pos {
                        assert(perm[i] == oldperm[i] && perm[j] == oldperm[j - 1]);
                    } else if i == pos {
                        assert(perm[i] == gi as int && perm[j] == oldperm[j - 1]);
                        assert(oldperm[j - 1] < gi);
                    } else {
                        assert(perm[i] == oldperm[i - 1] && perm[j] == oldperm[j - 1]);
                    }
                }
                assert forall|i: int, j: int|
                    0 <= i < j < newv.len() && group_size_spec(#[trigger] newv[i], view@)
                        == group_size_spec(#[trigger] newv[j], view@) implies perm[i] < perm[j]
                    by {
                    if i < pos && j < pos {
                        assert(newv[i] == oldout[i] && newv[j] == oldout[j]);
                        assert(perm[i] == oldperm[i] && perm[j] == oldperm[j]);
                    } else if i < pos && j == pos {
                        assert(perm[i] == oldperm[i] && oldperm[i] < gi);
                        assert(perm[j] == gi as int);
                    } else if i == pos && j > pos {
                        assert(newv[j] == oldout[j - 1]);
                        assert(group_size_spec(gv, view@) == k);
                        assert(group_size_spec(oldout[pos as int], view@) < k);
                        if j - 1 > pos {
                            assert(group_size_spec(oldout[pos as int], view@) >= group_size_spec(
                                oldout[j - 1],
                                view@,
                            ));
                        }
                    } else if i < pos && j > pos {
                        assert(newv[i] == oldout[i] && newv[j] == oldout[j - 1]);
                        assert(perm[i] == oldperm[i] && perm[j] == oldperm[j - 1]);
                    } else {
                        assert(newv[i] == oldout[i - 1] && newv[j] == oldout[j - 1]);
                        assert(perm[i] == oldperm[i - 1] && perm[j] == oldperm[j - 1]);
                    }
                }
            }
            assert(sorted_by_size(groups_view(out@), view@)) by {
                let newv = groups_view(out@);
                assert(newv[pos as int] == gv);
                assert forall|i: int, j: int|
                    0 <= i < j < newv.len() implies group_size_spec(
                    #[trigger] newv[i],
                    view@,
                ) >= group_size_spec(#[trigger] newv[j], view@) by {
                    assert(newv[pos as int] == gv);
                    if i < pos && j == pos {
                        assert(newv[i] == oldout[i]);
                        assert(group_size_spec(oldout[i], view@) >= k);
                    } else if i == pos && j > pos {
                        assert(newv[j] == oldout[j - 1]);
                        if pos < oldout.len() {
                            assert(group_size_spec(oldout[pos as int], view@) < k);
                            if j - 1 > pos {
                                assert(group_size_spec(oldout[pos as int], view@)
                                    >= group_size_spec(oldout[j - 1], view@));
                            }
                        }
                    } else if i < pos && j > pos {
                        assert(newv[i] == oldout[i]);
                        assert(newv[j] == oldout[j - 1]);
                        if pos < oldout.len() && j - 1 > pos {
                            assert(group_size_spec(oldout[pos as int], view@)
                                >= group_size_spec(oldout[j - 1], view@));
                        }
                    } else if i < pos && j < pos {
                        assert(newv[i] == oldout[i]);
                        assert(newv[j] == oldout[j]);
                    } else if i > pos && j > pos {
                        assert(newv[i] == oldout[i - 1]);
                        assert(newv[j] == oldout[j - 1]);
                    }
                }
            }
        }
        gi = gi + 1;
    }
    proof {
        assert(groups_view(snap.duplicates@).take(n as int) == groups_view(snap.duplicates@));
        assert(stable_arrangement(
            groups_view(out@),
            groups_view(snap.duplicates@),
            view@,
            perm,
        ));
    }
    out
}

/// The views of a list of lines.
pub open spec fn lines_view(v: Seq<Line>) -> Seq<LineV> {
    v.map_values(|l: Line| l@)
}

/// The lines of one rendered group: its checksum, one path-info line
/// per entry, a closing blank.
pub open spec fn group_lines_spec(g: GroupV, root: Seq<char>) -> Seq<LineV> {
    seq![LineV::Checksum(dec_rep(g.checksum as nat))] + g.files.map_values(
        |fp: FilePathV| pathinfo_spec(fp, root),
    ) + seq![LineV::Blank]
}

/// The lines of all rendered groups, in order.
pub open spec fn groups_lines_spec(gs: Seq<GroupV>, root: Seq<char>) -> Seq<LineV>
    decreases gs.len(),
{
    if gs.len() == 0 {
        Seq::empty()
    } else {
        group_lines_spec(gs[0], root) + groups_lines_spec(gs.drop_first(), root)
    }
}

/// Appending one group appends its lines.
pub proof fn lemma_groups_lines_push(gs: Seq<GroupV>, g: GroupV, root: Seq<char>)
    ensures
        groups_lines_spec(gs.push(g), root) == groups_lines_spec(gs, root) + group_lines_spec(
            g,
            root,
        ),
    decreases gs.len(),
{
    if gs.len() == 0 {
        let s1 = gs.push(g);
        assert(s1.len() == 1);
        assert(s1[0] == g);
        assert(s1.drop_first() =~= Seq::<GroupV>::empty());
        assert(groups_lines_spec(s1, root) == group_lines_spec(g, root) + groups_lines_spec(
            s1.drop_first(),
            root,
        ));
        assert(group_lines_spec(g, root) + Seq::<LineV>::empty() =~= group_lines_spec(g, root));
        assert(groups_lines_spec(gs, root) + group_lines_spec(g, root) =~= group_lines_spec(
            g,
            root,
        ));
    } else {
        lemma_groups_lines_push(gs.drop_first(), g, root);
        assert(gs.push(g).drop_first() =~= gs.drop_first().push(g));
        assert(gs.push(g)[0] == gs[0]);
        assert(group_lines_spec(gs[0], root) + (groups_lines_spec(gs.drop_first(), root)
            + group_lines_spec(g, root)) =~= (group_lines_spec(gs[0], root) + groups_lines_spec(
            gs.drop_first(),
            root,
        )) + group_lines_spec(g, root));
    }
}

/// The fixed block of reference-help comment lines.
pub open spec fn help_lines_spec() -> Seq<LineV> {
    seq![
        LineV::Comment("Reference:"@),
        LineV::Comment("keep <target> = keep the target path as it is"@),
        LineV::Comment("delete <target> = delete the target path"@),
        LineV::Comment("symlink <target> [-> <src>] = Replace target with a symlink"@),
        LineV::Comment(".       If 'src' is specified, it can either be an absolute or"@),
        LineV::Comment(".       relative (to 'target'). Else one of the duplicates marked"@),
        LineV::Comment(".       as 'keep' will be considered. If 'src' is not specified,"@),
        LineV::Comment(".       a relative symlink will be created."@),
        LineV::Comment(""@),
        LineV::Comment("This section is a comment and will be ignored by the tool"@),
    ]
}

/// The rendered line sequence: header metadata, a blank, the groups,
/// the help block — or nothing at all for an empty snapshot.
pub open spec fn render_lines_spec(snap: SnapshotV, gs: Seq<GroupV>) -> Seq<LineV> {
    if gs.len() == 0 {
        Seq::empty()
    } else {
        seq![
            LineV::MetaData { key: "Root Directory"@, val: snap.rootdir },
            LineV::MetaData { key: "Generated at"@, val: snap.generated_at },
            LineV::Blank,
        ] + groups_lines_spec(gs, snap.rootdir) + help_lines_spec()
    }
}

/// Each line encoded as text.
pub open spec fn encode_all(lines: Seq<LineV>) -> Seq<Seq<char>> {
    lines.map_values(|l: LineV| encode_spec(l))
}

/// The rendered document for a snapshot, with its groups in the order
/// given.
pub open spec fn render_strings_spec(snap: SnapshotV, gs: Seq<GroupV>) -> Seq<Seq<char>> {
    encode_all(render_lines_spec(snap, gs))
}

/// A group whose absolute paths all lie under the root: the renderer
/// requires this of every group.
pub open spec fn renderable_group(g: GroupV, root: Seq<char>) -> bool {
    forall|k: int|
        0 <= k < g.files.len() ==> (spec_is_absolute((#[trigger] g.files[k]).path)
            ==> within_root_spec(root, g.files[k].path))
}

/// A snapshot the renderer accepts.
pub open spec fn renderable(snap: SnapshotV) -> bool {
    forall|i: int|
        0 <= i < snap.duplicates.len() ==> renderable_group(
            #[trigger] snap.duplicates[i],
            snap.rootdir,
        )
}

/// What `render` guarantees of its output: some rearrangement `gs` of
/// the snapshot's groups, sorted by descending keeper size, whose
/// rendering the output is.
pub open spec fn rendered_as(
    snap: SnapshotV,
    view: Seq<FsEntryV>,
    gs: Seq<GroupV>,
    out: Seq<Seq<char>>,
) -> bool {
    &&& gs.to_multiset() == snap.duplicates.to_multiset()
    &&& sorted_by_size(gs, view)
    &&& out == render_strings_spec(snap, gs)
}

fn render_lines(snap: &Snapshot, sorted: &Vec<Group>) -> (r: Vec<Line>)
    requires
        forall|i: int|
            0 <= i < sorted@.len() ==> renderable_group(
                #[trigger] groups_view(sorted@)[i],
                snap.rootdir@,
            ),
    ensures
        lines_view(r@) == render_lines_spec(snap@, groups_view(sorted@)),
{
    let mut lines: Vec<Line> = Vec::new();
    if sorted.len() == 0 {
        proof {
            assert(lines_view(lines@) =~= render_lines_spec(snap@, groups_view(sorted@)));
        }
        return lines;
    }
    let ghost root = snap.rootdir@;
    let ghost gsv = groups_view(sorted@);
    let ghost header = seq![
        LineV::MetaData { key: "Root Directory"@, val: snap@.rootdir },
        LineV::MetaData { key: "Generated at"@, val: snap@.generated_at },
        LineV::Blank,
    ];
    lines.push(
        Line::MetaData { key: String::from_str("Root Directory"), val: snap.rootdir.clone() },
    );
    lines.push(
        Line::MetaData { key: String::from_str("Generated at"), val: snap.generated_at.clone() },
    );
    lines.push(Line::Blank);
    proof {
        assert(groups_lines_spec(gsv.take(0), root) =~= Seq::<LineV>::empty());
        assert(lines_view(lines@) =~= header + groups_lines_spec(gsv.take(0), root));
    }
    let n = sorted.len();
    let mut gi: usize = 0;
    while gi < n
        invariant
            0 <= gi <= n,
            n == sorted@.len(),
            gsv == groups_view(sorted@),
            root == snap.rootdir@,
            header == seq![
                LineV::MetaData { key: "Root Directory"@, val: snap@.rootdir },
                LineV::MetaData { key: "Generated at"@, val: snap@.generated_at },
                LineV::Blank,
            ],
            forall|i: int| 0 <= i < n ==> renderable_group(#[trigger] gsv[i], root),
            lines_view(lines@) == header + groups_lines_spec(gsv.take(gi as int), root),
        decreases n - gi,
    {
        let g = &sorted[gi];
        let ghost oldl = lines_view(lines@);
        lines.push(Line::Checksum(g.checksum.render()));
        proof {
            assert(lines_view(lines@) =~= oldl.push(
                LineV::Checksum(dec_rep(gsv[gi as int].checksum as nat)),
            ));
            assert(gsv[gi as int].files.take(0).map_values(
                |fp: FilePathV| pathinfo_spec(fp, root),
            ) =~= Seq::<LineV>::empty());
            assert(lines_view(lines@) =~= header + groups_lines_spec(gsv.take(gi as int), root)
                + seq![LineV::Checksum(dec_rep(gsv[gi as int].checksum as nat))] + gsv[gi
                as int].files.take(0).map_values(|fp: FilePathV| pathinfo_spec(fp, root)));
        }
        let m = g.files.len();
        let mut fi: usize = 0;
        while fi < m
            invariant
                0 <= fi <= m,
                0 <= gi < n,
                m == g.files@.len(),
                g == &sorted@[gi as int],
                n == sorted@.len(),
                gsv == groups_view(sorted@),
                root == snap.rootdir@,
                forall|i: int| 0 <= i < n ==> renderable_group(#[trigger] gsv[i], root),
                lines_view(lines@) == header + groups_lines_spec(gsv.take(gi as int), root)
                    + seq![LineV::Checksum(dec_rep(gsv[gi as int].checksum as nat))] + gsv[gi
                    as int].files.take(fi as int).map_values(
                    |fp: FilePathV| pathinfo_spec(fp, root),
                ),
            decreases m - fi,
        {
            proof {
                assert(renderable_group(gsv[gi as int], root));
                assert(gsv[gi as int].files[fi as int] == g.files@[fi as int]@);
            }
            let ghost oldl2 = lines_view(lines@);
            lines.push(Line::pathinfo(&g.files[fi], snap.rootdir.as_str()));
            proof {
                assert(lines_view(lines@) =~= oldl2.push(
                    pathinfo_spec(gsv[gi as int].files[fi as int], root),
                ));
                assert(gsv[gi as int].files.take(fi + 1) =~= gsv[gi as int].files.take(
                    fi as int,
                ).push(gsv[gi as int].files[fi as int]));
                assert(gsv[gi as int].files.take(fi + 1).map_values(
                    |fp: FilePathV| pathinfo_spec(fp, root),
                ) =~= gsv[gi as int].files.take(fi as int).map_values(
                    |fp: FilePathV| pathinfo_spec(fp, root),
                ).push(pathinfo_spec(gsv[gi as int].files[fi as int], root)));
                assert(lines_view(lines@) =~= header + groups_lines_spec(gsv.take(gi as int), root)
                    + seq![LineV::Checksum(dec_rep(gsv[gi as int].checksum as nat))] + gsv[gi
                    as int].files.take(fi + 1).map_values(|fp: FilePathV| pathinfo_spec(fp, root)));
            }
            fi = fi + 1;
        }
        let ghost oldl3 = lines_view(lines@);
        lines.push(Line::Blank);
        proof {
            assert(lines_view(lines@) =~= oldl3.push(LineV::Blank));
            assert(gsv[gi as int].files.take(m as int) == gsv[gi as int].files);
            lemma_groups_lines_push(gsv.take(gi as int), gsv[gi as int], root);
            assert(gsv.take(gi + 1) =~= gsv.take(gi as int).push(gsv[gi as int]));
            assert(lines_view(lines@) =~= header + groups_lines_spec(gsv.take(gi + 1), root));
        }
        gi = gi + 1;
    }
    proof {
        assert(gsv.take(n as int) == gsv);
    }
    lines.push(Line::Comment(String::from_str("Reference:")));
    lines.push(Line::Comment(String::from_str("keep <target> = keep the target path as it is")));
    lines.push(Line::Comment(String::from_str("delete <target> = delete the target path")));
    lines.push(
        Line::Comment(
            String::from_str("symlink <target> [-> <src>] = Replace target with a symlink"),
        ),
    );
    lines.push(
        Line::Comment(
            String::from_str(".       If 'src' is specified, it can either be an absolute or"),
        ),
    );
    lines.push(
        Line::Comment(
            String::from_str(".       relative (to 'target'). Else one of the duplicates marked"),
        ),
    );
    lines.push(
        Line::Comment(
            String::from_str(".       as 'keep' will be considered. If 'src' is not specified,"),
        ),
    );
    lines.push(Line::Comment(String::from_str(".       a relative symlink will be created.")));
    lines.push(Line::Comment(String::from_str("")));
    lines.push(
        Line::Comment(
            String::from_str("This section is a comment and will be ignored by the tool"),
        ),
    );
    proof {
        assert(lines_view(lines@) =~= header + groups_lines_spec(gsv, root) + help_lines_spec());
        assert(lines_view(lines@) =~= render_lines_spec(snap@, gsv));
    }
    lines
}

/// Renders a snapshot as its text document: an empty snapshot renders
/// as no lines at all; otherwise the header, the groups sorted by
/// descending keeper size, and the help block.
pub fn render(snap: &Snapshot, view: &FsView) -> (r: Vec<String>)
    requires
        renderable(snap@),
    ensures
        exists|gs: Seq<GroupV>| rendered_as(snap@, view@, gs, seg_views(r@)),
{
    broadcast use vstd::seq_lib::group_to_multiset_ensures;

    let sorted = sorted_groups(snap, view);
    proof {
        let gsv = groups_view(sorted@);
        let dups = groups_view(snap.duplicates@);
        assert forall|i: int| 0 <= i < sorted@.len() implies renderable_group(
            #[trigger] gsv[i],
            snap.rootdir@,
        ) by {
            assert(gsv.to_multiset().count(gsv[i]) > 0) by {
                assert(gsv.contains(gsv[i]));
            }
            assert(dups.to_multiset().count(gsv[i]) > 0);
            assert(dups.contains(gsv[i]));
            let j = choose|j: int| 0 <= j < dups.len() && dups[j] == gsv[i];
            assert(snap@.duplicates == dups);
            assert(renderable_group(snap@.duplicates[j], snap@.rootdir));
        }
    }
    let lines = render_lines(snap, &sorted);
    let mut out: Vec<String> = Vec::new();
    let n = lines.len();
    let mut i: usize = 0;
    while i < n
        invariant
            0 <= i <= n,
            n == lines@.len(),
            seg_views(out@) == encode_all(lines_view(lines@).take(i as int)),
        decreases n - i,
    {
        out.push(lines[i].encode());
        proof {
            assert(lines_view(lines@).take(i + 1) =~= lines_view(lines@).take(i as int).push(
                lines@[i as int]@,
            ));
            assert(seg_views(out@) =~= encode_all(lines_view(lines@).take(i as int)).push(
                encode_spec(lines@[i as int]@),
            ));
            assert(encode_all(lines_view(lines@).take(i + 1)) =~= encode_all(
                lines_view(lines@).take(i as int),
            ).push(encode_spec(lines@[i as int]@)));
        }
        i = i + 1;
    }
    proof {
        assert(lines_view(lines@).take(n as int) == lines_view(lines@));
        assert(rendered_as(snap@, view@, groups_view(sorted@), seg_views(out@)));
    }
    out
}

/// The view of an optional owned string.
pub open spec fn opt_view(o: Option<String>) -> Option<Seq<char>> {
    match o {
        Some(s) => Some(s@),
        None => None,
    }
}

/// Decoding inverts encoding on a well-formed metadata line.
pub proof fn lemma_rt_metadata(key: Seq<char>, val: Seq<char>)
    requires
        key.len() > 0,
        !is_ws(key[0]),
        forall|j: int| 0 <= j < key.len() ==> key[j] != ':',
        val.len() > 0,
        trim_spec(val) == val,
    ensures
        decode_spec(encode_spec(LineV::MetaData { key, val })) == Ok::<LineV, ()>(
            LineV::MetaData { key, val },
        ),
{
    reveal_strlit("#! ");
    reveal_strlit(": ");
    let enc = encode_spec(LineV::MetaData { key, val });
    assert(enc =~= seq!['#', '!', ' '] + key + seq![':', ' '] + val);
    crate::strutil::lemma_trim_stable_ends(val);
    assert(enc[0] == '#');
    assert(enc.last() == val.last());
    crate::strutil::lemma_trim_of_trim_stable(enc);
    let t = enc;
    assert(t[1] == '!');
    let rest = t.skip(2);
    assert(rest =~= seq![' '] + key + seq![':', ' '] + val);
    let ci = 1 + key.len() as int;
    assert forall|j: int| 0 <= j < ci implies rest[j] != ':' by {
        if j == 0 {
            assert(rest[0] == ' ');
        } else {
            assert(rest[j] == key[j - 1]);
        }
    }
    assert(rest[ci] == ':');
    crate::fileutil::lemma_first_idx(rest, ':', ci);
    assert(is_ws(rest[0]));
    assert(rest[1] == key[0]);
    lemma_ws_count(rest, 1);
    assert(rest.subrange(1, ci) =~= key);
    let tail = rest.skip(ci + 1);
    assert(tail =~= seq![' '] + val);
    assert(!is_ws(tail[1]));
    lemma_drop_leading_ws_skip(tail, 1);
    assert(tail.skip(1) =~= val);
}

/// Decoding inverts encoding on a checksum line whose body is all
/// digits.
pub proof fn lemma_rt_checksum(h: Seq<char>)
    requires
        is_digits(h),
    ensures
        decode_spec(encode_spec(LineV::Checksum(h))) == Ok::<LineV, ()>(LineV::Checksum(h)),
{
    reveal_strlit("[");
    reveal_strlit("]");
    let enc = encode_spec(LineV::Checksum(h));
    assert(enc =~= seq!['['] + h + seq![']']);
    assert(enc[0] == '[');
    assert(enc.last() == ']');
    crate::strutil::lemma_trim_of_trim_stable(enc);
    let t = enc;
    let rest = t.skip(1);
    assert(rest =~= h + seq![']']);
    let ci = h.len() as int;
    assert forall|j: int| 0 <= j < ci implies rest[j] != ']' by {
        assert(rest[j] == h[j]);
        assert('0' <= h[j] <= '9');
    }
    assert(rest[ci] == ']');
    crate::fileutil::lemma_first_idx(rest, ']', ci);
    assert(rest.take(ci) =~= h);
}

/// Decoding inverts encoding on a trim-stable comment line.
pub proof fn lemma_rt_comment(c: Seq<char>)
    requires
        trim_spec(c) == c,
    ensures
        decode_spec(encode_spec(LineV::Comment(c))) == Ok::<LineV, ()>(LineV::Comment(c)),
{
    reveal_strlit("# ");
    let enc = encode_spec(LineV::Comment(c));
    assert(enc =~= seq!['#', ' '] + c);
    if c.len() == 0 {
        assert(enc =~= seq!['#'].push(' '));
        crate::strutil::lemma_trim_drop_trailing(seq!['#'], ' ');
        assert(seq!['#'][0] == '#');
        crate::strutil::lemma_trim_of_trim_stable(seq!['#']);
        let t = trim_spec(enc);
        assert(t =~= seq!['#']);
        assert(decode_trimmed(t) == Ok::<LineV, ()>(LineV::Comment(Seq::empty())));
        assert(c =~= Seq::<char>::empty());
    } else {
        crate::strutil::lemma_trim_stable_ends(c);
        assert(enc[0] == '#');
        assert(enc.last() == c.last());
        crate::strutil::lemma_trim_of_trim_stable(enc);
        let t = enc;
        assert(t.len() >= 3);
        assert(t[1] == ' ' && is_ws(t[1]) && t[1] != '!');
        assert(t.skip(2) =~= c);
    }
}

/// Decoding inverts encoding on a blank line.
pub proof fn lemma_rt_blank()
    ensures
        decode_spec(encode_spec(LineV::Blank)) == Ok::<LineV, ()>(LineV::Blank),
{
    let enc = encode_spec(LineV::Blank);
    assert(enc.len() == 0);
    assert(trim_spec(enc) =~= enc);
}

/// Decoding inverts encoding on a `keep` line.
pub proof fn lemma_rt_keep(rel: Seq<char>)
    requires
        rel.len() > 0,
        trim_spec(rel) == rel,
    ensures
        decode_spec(
            encode_spec(LineV::PathInfo { path: rel, op: "keep"@, delim: None, extra: None }),
        ) == Ok::<LineV, ()>(
            LineV::PathInfo { path: rel, op: "keep"@, delim: None, extra: None },
        ),
{
    reveal_strlit("keep");
    reveal_strlit(" ");
    let enc = encode_spec(LineV::PathInfo { path: rel, op: "keep"@, delim: None, extra: None });
    assert(enc =~= seq!['k', 'e', 'e', 'p', ' '] + rel);
    crate::strutil::lemma_trim_stable_ends(rel);
    assert(enc[0] == 'k');
    assert(enc.last() == rel.last());
    crate::strutil::lemma_trim_of_trim_stable(enc);
    let t = enc;
    assert(t[0] != '#' && t[0] != '[');
    assert(t.len() >= 6);
    assert(t.take(4) =~= "keep"@);
    assert(is_ws(t[4]));
    assert(t.skip(5) =~= rel);
}

/// Decoding inverts encoding on a `delete` line.
pub proof fn lemma_rt_delete(rel: Seq<char>)
    requires
        rel.len() > 0,
        trim_spec(rel) == rel,
    ensures
        decode_spec(
            encode_spec(LineV::PathInfo { path: rel, op: "delete"@, delim: None, extra: None }),
        ) == Ok::<LineV, ()>(
            LineV::PathInfo { path: rel, op: "delete"@, delim: None, extra: None },
        ),
{
    reveal_strlit("keep");
    reveal_strlit("symlink");
    reveal_strlit("delete");
    reveal_strlit(" ");
    let enc = encode_spec(
        LineV::PathInfo { path: rel, op: "delete"@, delim: None, extra: None },
    );
    assert(enc =~= seq!['d', 'e', 'l', 'e', 't', 'e', ' '] + rel);
    crate::strutil::lemma_trim_stable_ends(rel);
    assert(enc[0] == 'd');
    assert(enc.last() == rel.last());
    crate::strutil::lemma_trim_of_trim_stable(enc);
    let t = enc;
    assert(t[0] != '#' && t[0] != '[');
    assert(t.len() >= 6 ==> t.take(4) != "keep"@) by {
        if t.len() >= 6 {
            assert(t.take(4)[0] == 'd');
            assert("keep"@[0] == 'k');
        }
    }
    assert(t.len() >= 9 ==> t.take(7) != "symlink"@) by {
        if t.len() >= 9 {
            assert(t.take(7)[0] == 'd');
            assert("symlink"@[0] == 's');
        }
    }
    assert(t.len() >= 8);
    assert(t.take(6) =~= "delete"@);
    assert(is_ws(t[6]));
    assert(t.skip(7) =~= rel);
}

proof fn lemma_arrow_free_empty()
    ensures
        arrow_free(Seq::<char>::empty()),
{
    assert forall|j: int| 0 <= j implies !arrow_at(Seq::<char>::empty(), j) by {}
}

/// Decoding inverts encoding on a `symlink` line with an explicit
/// source.
pub proof fn lemma_rt_symlink_some(rel: Seq<char>, src: Seq<char>)
    requires
        rel.len() > 0,
        trim_spec(rel) == rel,
        arrow_free(rel),
        src.len() > 0,
        trim_spec(src) == src,
        arrow_free(src),
    ensures
        decode_spec(
            encode_spec(
                LineV::PathInfo {
                    path: rel,
                    op: "symlink"@,
                    delim: Some("->"@),
                    extra: Some(src),
                },
            ),
        ) == Ok::<LineV, ()>(
            LineV::PathInfo { path: rel, op: "symlink"@, delim: Some("->"@), extra: Some(src) },
        ),
{
    reveal_strlit("keep");
    reveal_strlit("symlink");
    reveal_strlit(" ");
    reveal_strlit("->");
    let line = LineV::PathInfo {
        path: rel,
        op: "symlink"@,
        delim: Some("->"@),
        extra: Some(src),
    };
    let enc = encode_spec(line);
    assert(enc =~= seq!['s', 'y', 'm', 'l', 'i', 'n', 'k', ' '] + rel + seq![' ', '-', '>', ' ']
        + src);
    crate::strutil::lemma_trim_stable_ends(rel);
    crate::strutil::lemma_trim_stable_ends(src);
    assert(enc[0] == 's');
    assert(enc.last() == src.last());
    crate::strutil::lemma_trim_of_trim_stable(enc);
    let t = enc;
    assert(t[0] != '#' && t[0] != '[');
    assert(t.len() >= 6 ==> t.take(4) != "keep"@) by {
        if t.len() >= 6 {
            assert(t.take(4)[0] == 's');
            assert("keep"@[0] == 'k');
        }
    }
    assert(t.len() >= 9);
    assert(t.take(7) =~= "symlink"@);
    assert(is_ws(t[7]));
    let rem = t.skip(8);
    assert(rem =~= rel + seq![' ', '-', '>', ' '] + src);
    // first arrow token sits just after the path
    let ai = rel.len() as int + 1;
    assert forall|j: int| 0 <= j < ai implies !arrow_at(rem, j) by {
        if j < rel.len() - 1 {
            assert(rem[j] == rel[j]);
            assert(rem[j + 1] == rel[j + 1]);
            assert(!arrow_at(rel, j));
        } else if j == rel.len() - 1 {
            assert(rem[j + 1] == ' ');
        } else {
            assert(rem[j] == ' ');
        }
    }
    assert(rem[ai] == '-' && rem[ai + 1] == '>');
    assert(arrow_at(rem, ai));
    lemma_arrow_idx(rem, ai);
    assert(split_arrow(rem) == seq![rem.take(ai)] + split_arrow(rem.skip(ai + 2)));
    assert(rem.take(ai) =~= rel + seq![' ']);
    let rest2 = rem.skip(ai + 2);
    assert(rest2 =~= seq![' '] + src);
    assert forall|j: int| 0 <= j implies !arrow_at(rest2, j) by {
        if 0 <= j && j + 2 <= rest2.len() {
            if j == 0 {
                assert(rest2[0] == ' ');
            } else {
                assert(rest2[j] == src[j - 1]);
                assert(rest2[j + 1] == src[j]);
                assert(!arrow_at(src, j - 1));
            }
        }
    }
    lemma_arrow_idx(rest2, rest2.len() as int);
    assert(split_arrow(rest2) == seq![rest2]);
    let pieces = split_arrow(rem);
    assert(pieces =~= seq![rel + seq![' '], seq![' '] + src]);
    // the parts: each piece trimmed, empties dropped
    assert(rel + seq![' '] =~= rel.push(' '));
    crate::strutil::lemma_trim_drop_trailing(rel, ' ');
    crate::strutil::lemma_trim_pad_left(src, ' ');
    assert(trim_spec(pieces[0]) == rel);
    assert(trim_spec(pieces[1]) == src);
    assert(pieces.drop_first() =~= seq![seq![' '] + src]);
    assert(pieces.drop_first().drop_first() =~= Seq::<Seq<char>>::empty());
    assert(parts_of(pieces.drop_first().drop_first()) =~= Seq::<Seq<char>>::empty());
    assert(parts_of(pieces.drop_first()) =~= seq![src]);
    assert(parts_of(pieces) =~= seq![rel, src]);
    assert(parts_spec(t.skip(8)) == seq![rel, src]);
}

/// Decoding inverts encoding on a `symlink` line without a source.
pub proof fn lemma_rt_symlink_none(rel: Seq<char>)
    requires
        rel.len() > 0,
        trim_spec(rel) == rel,
        arrow_free(rel),
    ensures
        decode_spec(
            encode_spec(
                LineV::PathInfo { path: rel, op: "symlink"@, delim: Some("->"@), extra: None },
            ),
        ) == Ok::<LineV, ()>(
            LineV::PathInfo { path: rel, op: "symlink"@, delim: Some("->"@), extra: None },
        ),
{
    reveal_strlit("keep");
    reveal_strlit("symlink");
    reveal_strlit(" ");
    reveal_strlit("->");
    let line = LineV::PathInfo { path: rel, op: "symlink"@, delim: Some("->"@), extra: None };
    let enc = encode_spec(line);
    let x = seq!['s', 'y', 'm', 'l', 'i', 'n', 'k', ' '] + rel + seq![' ', '-', '>'];
    assert(enc =~= x.push(' '));
    crate::strutil::lemma_trim_stable_ends(rel);
    crate::strutil::lemma_trim_drop_trailing(x, ' ');
    assert(x[0] == 's');
    assert(x.last() == '>');
    crate::strutil::lemma_trim_of_trim_stable(x);
    let t = x;
    assert(trim_spec(enc) == t);
    assert(t[0] != '#' && t[0] != '[');
    assert(t.len() >= 6 ==> t.take(4) != "keep"@) by {
        if t.len() >= 6 {
            assert(t.take(4)[0] == 's');
            assert("keep"@[0] == 'k');
        }
    }
    assert(t.len() >= 9);
    assert(t.take(7) =~= "symlink"@);
    assert(is_ws(t[7]));
    let rem = t.skip(8);
    assert(rem =~= rel + seq![' ', '-', '>']);
    let ai = rel.len() as int + 1;
    assert forall|j: int| 0 <= j < ai implies !arrow_at(rem, j) by {
        if j < rel.len() - 1 {
            assert(rem[j] == rel[j]);
            assert(rem[j + 1] == rel[j + 1]);
            assert(!arrow_at(rel, j));
        } else if j == rel.len() - 1 {
            assert(rem[j + 1] == ' ');
        } else {
            assert(rem[j] == ' ');
        }
    }
    assert(rem[ai] == '-' && rem[ai + 1] == '>');
    assert(arrow_at(rem, ai));
    lemma_arrow_idx(rem, ai);
    assert(split_arrow(rem) == seq![rem.take(ai)] + split_arrow(rem.skip(ai + 2)));
    assert(rem.take(ai) =~= rel + seq![' ']);
    let rest2 = rem.skip(ai + 2);
    assert(rest2 =~= Seq::<char>::empty());
    lemma_arrow_free_empty();
    lemma_arrow_idx(rest2, 0);
    assert(split_arrow(rest2) == seq![rest2]);
    let pieces = split_arrow(rem);
    assert(pieces =~= seq![rel + seq![' '], Seq::<char>::empty()]);
    assert(rel + seq![' '] =~= rel.push(' '));
    crate::strutil::lemma_trim_drop_trailing(rel, ' ');
    assert(trim_spec(pieces[0]) == rel);
    assert(trim_spec(pieces[1]).len() == 0) by {
        assert(trim_spec(Seq::<char>::empty()) =~= Seq::<char>::empty());
    }
    assert(pieces.drop_first() =~= seq![Seq::<char>::empty()]);
    assert(pieces.drop_first().drop_first() =~= Seq::<Seq<char>>::empty());
    assert(parts_of(Seq::<Seq<char>>::empty()) =~= Seq::<Seq<char>>::empty());
    assert(trim_spec(Seq::<char>::empty()) =~= Seq::<char>::empty());
    assert(trim_spec(pieces.drop_first()[0]).len() == 0);
    assert(parts_of(pieces.drop_first()) == parts_of(pieces.drop_first().drop_first()));
    assert(parts_of(pieces.drop_first()) =~= Seq::<Seq<char>>::empty());
    assert(parts_of(pieces) =~= seq![rel]);
    assert(parts_spec(t.skip(8)) == seq![rel]);
}

/// How parsing fails: malformed text, or a path that cannot be
/// normalized against the root.
pub enum ParseErrV {
    Parsing,
    Fs,
}

/// The parser's running state: the retained metadata, the checksum of
/// the group being read, and the groups assembled so far.
pub struct ParseStV {
    pub root: Option<Seq<char>>,
    pub gen: Option<Seq<char>>,
    pub curr: Option<u64>,
    pub groups: Seq<GroupV>,
}

/// The parser's starting state.
pub open spec fn init_state() -> ParseStV {
    ParseStV { root: None, gen: None, curr: None, groups: Seq::empty() }
}

/// Adds an entry to the group keyed `c`, appending a new group at the
/// end when none carries that checksum yet.
pub open spec fn upsert_spec(groups: Seq<GroupV>, c: u64, fp: FilePathV) -> Seq<GroupV>
    decreases groups.len(),
{
    if groups.len() == 0 {
        seq![GroupV { checksum: c, files: seq![fp] }]
    } else if groups[0].checksum == c {
        seq![GroupV { checksum: c, files: groups[0].files.push(fp) }] + groups.drop_first()
    } else {
        seq![groups[0]] + upsert_spec(groups.drop_first(), c, fp)
    }
}

/// One step of the parser over a decoded line.
pub open spec fn parse_step(st: ParseStV, l: LineV) -> Result<ParseStV, ParseErrV> {
    match l {
        LineV::Comment(_) => Ok(st),
        LineV::Blank => Ok(st),
        LineV::MetaData { key, val } => {
            if key == "Root Directory"@ {
                if st.root is None {
                    Ok(ParseStV { root: Some(val), gen: st.gen, curr: st.curr, groups: st.groups })
                } else {
                    Ok(st)
                }
            } else if key == "Generated at"@ {
                if st.gen is None {
                    if rfc2822_ok(val) {
                        Ok(
                            ParseStV {
                                root: st.root,
                                gen: Some(val),
                                curr: st.curr,
                                groups: st.groups,
                            },
                        )
                    } else {
                        Err(ParseErrV::Parsing)
                    }
                } else {
                    Ok(st)
                }
            } else {
                Ok(st)
            }
        },
        LineV::Checksum(h) => {
            if is_digits(h) && dec_val(h) <= u64::MAX {
                Ok(
                    ParseStV {
                        root: st.root,
                        gen: st.gen,
                        curr: Some(dec_val(h) as u64),
                        groups: st.groups,
                    },
                )
            } else {
                Err(ParseErrV::Parsing)
            }
        },
        LineV::PathInfo { path, op, delim, extra } => match st.curr {
            None => Err(ParseErrV::Parsing),
            Some(c) => match st.root {
                None => Err(ParseErrV::Parsing),
                Some(root) => match decode_op_spec(op, extra) {
                    None => Err(ParseErrV::Parsing),
                    Some(opv) => match normalize_path_spec(path, false, root) {
                        None => Err(ParseErrV::Fs),
                        Some(ap) => Ok(
                            ParseStV {
                                root: st.root,
                                gen: st.gen,
                                curr: st.curr,
                                groups: upsert_spec(
                                    st.groups,
                                    c,
                                    FilePathV { path: ap, op: opv },
                                ),
                            },
                        ),
                    },
                },
            },
        },
    }
}

/// Runs the parser over a line list, stopping at the first fault.
pub open spec fn parse_lines(lines: Seq<Seq<char>>, st: ParseStV) -> Result<ParseStV, ParseErrV>
    decreases lines.len(),
{
    if lines.len() == 0 {
        Ok(st)
    } else {
        match decode_spec(lines[0]) {
            Err(_) => Err(ParseErrV::Parsing),
            Ok(l) => match parse_step(st, l) {
                Err(e) => Err(e),
                Ok(st2) => parse_lines(lines.drop_first(), st2),
            },
        }
    }
}

/// Parsing splits over concatenation: the second half starts from the
/// state the first half reached.
pub proof fn lemma_parse_lines_concat(a: Seq<Seq<char>>, b: Seq<Seq<char>>, st: ParseStV)
    ensures
        parse_lines(a + b, st) == match parse_lines(a, st) {
            Ok(m) => parse_lines(b, m),
            Err(e) => Err(e),
        },
    decreases a.len(),
{
    if a.len() == 0 {
        assert(a + b =~= b);
    } else {
        assert((a + b)[0] == a[0]);
        assert((a + b).drop_first() =~= a.drop_first() + b);
        assert((a + b).len() > 0);
        match decode_spec(a[0]) {
            Err(_) => {},
            Ok(l) => {
                match parse_step(st, l) {
                    Err(_) => {},
                    Ok(st2) => {
                        lemma_parse_lines_concat(a.drop_first(), b, st2);
                    },
                }
            },
        }
    }
}

/// The parsed snapshot: the parser must have seen a root and a
/// timestamp.
pub open spec fn parse_spec(lines: Seq<Seq<char>>) -> Result<SnapshotV, ParseErrV> {
    match parse_lines(lines, init_state()) {
        Err(e) => Err(e),
        Ok(st) => match (st.root, st.gen) {
            (Some(root), Some(gen)) => Ok(
                SnapshotV { rootdir: root, generated_at: gen, duplicates: st.groups },
            ),
            _ => Err(ParseErrV::Parsing),
        },
    }
}

proof fn lemma_upsert_found(gs: Seq<GroupV>, c: u64, fp: FilePathV, i: int)
    requires
        0 <= i < gs.len(),
        gs[i].checksum == c,
        forall|j: int| 0 <= j < i ==> (#[trigger] gs[j]).checksum != c,
    ensures
        upsert_spec(gs, c, fp) == gs.update(
            i,
            GroupV { checksum: c, files: gs[i].files.push(fp) },
        ),
    decreases i,
{
    if i == 0 {
        assert(upsert_spec(gs, c, fp) =~= gs.update(
            0,
            GroupV { checksum: c, files: gs[0].files.push(fp) },
        ));
    } else {
        assert(gs[0].checksum != c);
        assert(forall|j: int| 0 <= j < i - 1 ==> (#[trigger] gs.drop_first()[j]) == gs[j + 1]);
        lemma_upsert_found(gs.drop_first(), c, fp, i - 1);
        assert(gs.drop_first()[i - 1] == gs[i]);
        assert(upsert_spec(gs, c, fp) =~= gs.update(
            i,
            GroupV { checksum: c, files: gs[i].files.push(fp) },
        ));
    }
}

proof fn lemma_upsert_absent(gs: Seq<GroupV>, c: u64, fp: FilePathV)
    requires
        forall|j: int| 0 <= j < gs.len() ==> (#[trigger] gs[j]).checksum != c,
    ensures
        upsert_spec(gs, c, fp) == gs.push(GroupV { checksum: c, files: seq![fp] }),
    decreases gs.len(),
{
    if gs.len() == 0 {
        assert(upsert_spec(gs, c, fp) =~= gs.push(GroupV { checksum: c, files: seq![fp] }));
    } else {
        assert(forall|j: int| 0 <= j < gs.drop_first().len() ==> (#[trigger] gs.drop_first()[j])
            == gs[j + 1]);
        lemma_upsert_absent(gs.drop_first(), c, fp);
        assert(upsert_spec(gs, c, fp) =~= gs.push(GroupV { checksum: c, files: seq![fp] }));
    }
}

fn upsert_group(groups: Vec<Group>, c: u64, fp: FilePath) -> (r: Vec<Group>)
    ensures
        groups_view(r@) == upsert_spec(groups_view(groups@), c, fp@),
{
    let ghost gv = groups_view(groups@);
    let ghost fpv = fp@;
    let mut groups = groups;
    let n = groups.len();
    let mut found: Option<usize> = None;
    let mut i: usize = 0;
    while i < n && found.is_none()
        invariant
            0 <= i <= n,
            n == groups@.len(),
            gv == groups_view(groups@),
            match found {
                Some(k) => 0 <= k < n && gv[k as int].checksum == c && forall|j: int|
                    0 <= j < k ==> (#[trigger] gv[j]).checksum != c,
                None => forall|j: int| 0 <= j < i ==> (#[trigger] gv[j]).checksum != c,
            },
        decreases n - i + (if found is None { 1int } else { 0int }),
    {
        proof {
            assert(gv[i as int] == groups@[i as int]@);
        }
        if groups[i].checksum.value() == c {
            found = Some(i);
        } else {
            i = i + 1;
        }
    }
    match found {
        Some(k) => {
            let mut g = groups.remove(k);
            proof {
                assert(g@ == gv[k as int]);
            }
            g.files.push(fp);
            let ghost gnew = g@;
            groups.insert(k, g);
            proof {
                assert(gnew.files =~= gv[k as int].files.push(fpv));
                assert(gnew.checksum == c);
                assert(gnew == GroupV { checksum: c, files: gv[k as int].files.push(fpv) });
                lemma_upsert_found(gv, c, fpv, k as int);
                assert forall|j: int| 0 <= j < groups@.len() implies groups_view(groups@)[j]
                    == gv.update(k as int, gnew)[j] by {
                    assert(groups_view(groups@)[j] == groups@[j]@);
                }
                assert(groups_view(groups@) =~= gv.update(k as int, gnew));
            }
            groups
        },
        None => {
            let mut files: Vec<FilePath> = Vec::new();
            files.push(fp);
            let g = Group { checksum: Checksum::new(c), files };
            proof {
                assert(g@.files =~= seq![fpv]);
                assert(g@ == GroupV { checksum: c, files: seq![fpv] });
            }
            let ghost gnew = g@;
            groups.push(g);
            proof {
                lemma_upsert_absent(gv, c, fpv);
                assert(groups_view(groups@) =~= gv.push(gnew));
            }
            groups
        },
    }
}

/// Parses an edited snapshot document back into a snapshot.
///
/// The first `Root Directory` and `Generated at` metadata lines are
/// retained; each checksum line opens a group; each path line joins the
/// group opened last, its path made absolute against the root. Fails on
/// undecodable lines, a path line before any checksum line, a missing
/// root or timestamp, or a path outside the root.
pub fn parse(str_lines: &Vec<String>) -> (r: Result<Snapshot, AppError>)
    ensures
        match r {
            Ok(snap) => parse_spec(seg_views(str_lines@)) == Ok::<SnapshotV, ParseErrV>(snap@),
            Err(e) => match parse_spec(seg_views(str_lines@)) {
                Ok(_) => false,
                Err(ParseErrV::Parsing) => e == AppError::SnapshotParsing,
                Err(ParseErrV::Fs) => e matches AppError::Fs(_),
            },
        },
{
    let ghost lv = seg_views(str_lines@);
    let mut root: Option<String> = None;
    let mut gen: Option<String> = None;
    let mut curr: Option<u64> = None;
    let mut groups: Vec<Group> = Vec::new();
    let n = str_lines.len();
    let mut i: usize = 0;
    proof {
        assert(lv.take(0) =~= Seq::<Seq<char>>::empty());
        assert(groups_view(groups@) =~= Seq::<GroupV>::empty());
    }
    while i < n
        invariant
            0 <= i <= n,
            n == str_lines@.len(),
            lv == seg_views(str_lines@),
            parse_lines(lv.take(i as int), init_state()) == Ok::<ParseStV, ParseErrV>(
                ParseStV {
                    root: opt_view(root),
                    gen: opt_view(gen),
                    curr,
                    groups: groups_view(groups@),
                },
            ),
        decreases n - i,
    {
        let ghost stv = ParseStV {
            root: opt_view(root),
            gen: opt_view(gen),
            curr,
            groups: groups_view(groups@),
        };
        proof {
            assert(lv.take(i + 1) =~= lv.take(i as int) + seq![lv[i as int]]);
            lemma_parse_lines_concat(lv.take(i as int), seq![lv[i as int]], init_state());
            assert(seq![lv[i as int]].drop_first() =~= Seq::<Seq<char>>::empty());
            assert(lv =~= lv.take(i as int) + lv.skip(i as int));
            lemma_parse_lines_concat(lv.take(i as int), lv.skip(i as int), init_state());
            assert(lv.skip(i as int)[0] == lv[i as int]);
            assert(lv[i as int] == str_lines@[i as int]@);
            assert(seq![lv[i as int]][0] == lv[i as int]);
            assert(seq![lv[i as int]].len() == 1);
            assert forall|st2: ParseStV| #[trigger] parse_lines(
                Seq::<Seq<char>>::empty(),
                st2,
            ) == Ok::<ParseStV, ParseErrV>(st2) by {}
        }
        let line = match Line::decode(str_lines[i].as_str()) {
            Ok(l) => l,
            Err(e) => {
                return Err(e);
            },
        };
        let ghost linev = line@;
        proof {
            assert(decode_spec(lv[i as int]) == Ok::<LineV, ()>(linev));
            assert(parse_lines(lv.take(i + 1), init_state()) == parse_lines(
                seq![lv[i as int]],
                stv,
            ));
            let single = seq![lv[i as int]];
            assert(single.len() == 1);
            assert(decode_spec(single[0]) == Ok::<LineV, ()>(linev));
            reveal_with_fuel(parse_lines, 3);
            assert(parse_lines(single, stv) == parse_step(stv, linev));
            assert(parse_lines(lv.take(i + 1), init_state()) == parse_step(stv, linev));
        }
        match line {
            Line::Comment(_) => {},
            Line::Blank => {},
            Line::MetaData { key, val } => {
                if crate::strutil::str_eq(key.as_str(), "Root Directory") {
                    if root.is_none() {
                        root = Some(val);
                    }
                } else if crate::strutil::str_eq(key.as_str(), "Generated at") {
                    if gen.is_none() {
                        if rfc2822_valid(val.as_str()) {
                            gen = Some(val);
                        } else {
                            return Err(AppError::SnapshotParsing);
                        }
                    }
                }
            },
            Line::Checksum(h) => {
                match Checksum::parse(h.as_str()) {
                    Ok(c) => {
                        curr = Some(c.value());
                    },
                    Err(_) => {
                        return Err(AppError::SnapshotParsing);
                    },
                }
            },
            Line::PathInfo { path, op, delim: _, extra } => {
                let c = match curr {
                    Some(c) => c,
                    None => {
                        return Err(AppError::SnapshotParsing);
                    },
                };
                let base = match &root {
                    Some(r) => r,
                    None => {
                        return Err(AppError::SnapshotParsing);
                    },
                };
                let opv = match FileOp::decode(
                    op.as_str(),
                    match &extra {
                        Some(x) => Some(x.as_str()),
                        None => None,
                    },
                ) {
                    Some(o) => o,
                    None => {
                        return Err(AppError::SnapshotParsing);
                    },
                };
                let abs_path = match normalize_path(path.as_str(), false, base.as_str()) {
                    Ok(p) => p,
                    Err(e) => {
                        return Err(e);
                    },
                };
                groups = upsert_group(groups, c, FilePath { path: abs_path, op: opv });
            },
        }
        i = i + 1;
    }
    proof {
        assert(lv.take(n as int) == lv);
    }
    match (root, gen) {
        (Some(rootdir), Some(generated_at)) => Ok(
            Snapshot { rootdir, generated_at, duplicates: groups },
        ),
        _ => Err(AppError::SnapshotParsing),
    }
}


/// A snapshot entry the codec round-trips: an absolute canonical path
/// strictly under the root whose root-relative form survives trimming,
/// and, for a symlink entry, an arrow-free relative form and source.
pub open spec fn wf_path_entry(fp: FilePathV, root: Seq<char>) -> bool {
    let rel = strip_prefix_spec(fp.path, root);
    &&& spec_is_absolute(fp.path)
    &&& clean_path(fp.path)
    &&& strictly_under(fp.path, root)
    &&& trim_spec(rel) == rel
    &&& match fp.op {
        FileOpV::Symlink { source } => arrow_free(rel) && match source {
            Some(src) => src.len() > 0 && trim_spec(src) == src && arrow_free(src),
            None => true,
        },
        _ => true,
    }
}

/// A group the codec round-trips.
pub open spec fn wf_group(g: GroupV, root: Seq<char>) -> bool {
    g.files.len() > 0 && forall|k: int|
        0 <= k < g.files.len() ==> wf_path_entry(#[trigger] g.files[k], root)
}

/// A snapshot the codec round-trips: canonical absolute root, valid
/// trim-stable timestamp, well-formed groups with pairwise distinct
/// checksums.
pub open spec fn wf_snapshot(snap: SnapshotV) -> bool {
    &&& spec_is_absolute(snap.rootdir)
    &&& clean_path(snap.rootdir)
    &&& !is_ws(snap.rootdir.last())
    &&& snap.generated_at.len() > 0
    &&& trim_spec(snap.generated_at) == snap.generated_at
    &&& rfc2822_ok(snap.generated_at)
    &&& forall|i: int|
        0 <= i < snap.duplicates.len() ==> wf_group(#[trigger] snap.duplicates[i], snap.rootdir)
    &&& forall|i: int, j: int|
        0 <= i < j < snap.duplicates.len() ==> (#[trigger] snap.duplicates[i]).checksum != (
        #[trigger] snap.duplicates[j]).checksum
}

proof fn lemma_parse_comments(cs: Seq<LineV>, st: ParseStV)
    requires
        forall|k: int|
            0 <= k < cs.len() ==> ((#[trigger] cs[k]) matches LineV::Comment(_) && decode_spec(
                encode_spec(cs[k]),
            ) == Ok::<LineV, ()>(cs[k])),
    ensures
        parse_lines(encode_all(cs), st) == Ok::<ParseStV, ParseErrV>(st),
    decreases cs.len(),
{
    reveal_with_fuel(parse_lines, 2);
    if cs.len() == 0 {
        assert(encode_all(cs) =~= Seq::<Seq<char>>::empty());
    } else {
        let lines = encode_all(cs);
        assert(lines[0] == encode_spec(cs[0]));
        assert(decode_spec(lines[0]) == Ok::<LineV, ()>(cs[0]));
        assert(parse_step(st, cs[0]) == Ok::<ParseStV, ParseErrV>(st));
        assert(forall|k: int| 0 <= k < cs.drop_first().len() ==> cs.drop_first()[k] == cs[k + 1]);
        lemma_parse_comments(cs.drop_first(), st);
        assert(lines.drop_first() =~= encode_all(cs.drop_first()));
    }
}

proof fn lemma_help_roundtrip()
    ensures
        forall|k: int|
            0 <= k < help_lines_spec().len() ==> ((#[trigger] help_lines_spec()[k]) matches
                LineV::Comment(_) && decode_spec(encode_spec(help_lines_spec()[k])) == Ok::<
                LineV,
                (),
            >(help_lines_spec()[k])),
{
    let hs = help_lines_spec();
    reveal_strlit("Reference:");
    reveal_strlit("keep <target> = keep the target path as it is");
    reveal_strlit("delete <target> = delete the target path");
    reveal_strlit("symlink <target> [-> <src>] = Replace target with a symlink");
    reveal_strlit(".       If 'src' is specified, it can either be an absolute or");
    reveal_strlit(".       relative (to 'target'). Else one of the duplicates marked");
    reveal_strlit(".       as 'keep' will be considered. If 'src' is not specified,");
    reveal_strlit(".       a relative symlink will be created.");
    reveal_strlit("");
    reveal_strlit("This section is a comment and will be ignored by the tool");
    assert forall|k: int| 0 <= k < hs.len() implies (#[trigger] hs[k]) matches LineV::Comment(_)
        && decode_spec(encode_spec(hs[k])) == Ok::<LineV, ()>(hs[k]) by {
        let c = hs[k]->Comment_0;
        if c.len() == 0 {
            assert(trim_spec(c) =~= c);
        } else {
            assert(!is_ws(c[0]));
            assert(!is_ws(c.last()));
            crate::strutil::lemma_trim_of_trim_stable(c);
        }
        lemma_rt_comment(c);
    }
}

#[verifier::rlimit(100)]
#[verifier::spinoff_prover]
proof fn lemma_parse_entries(
    files: Seq<FilePathV>,
    c: u64,
    root: Seq<char>,
    base: Seq<GroupV>,
    gpre: Seq<FilePathV>,
    st: ParseStV,
)
    requires
        st.curr == Some(c),
        st.root == Some(root),
        st.groups == base.push(GroupV { checksum: c, files: gpre }),
        forall|j: int| 0 <= j < base.len() ==> (#[trigger] base[j]).checksum != c,
        spec_is_absolute(root),
        clean_path(root),
        forall|k: int| 0 <= k < files.len() ==> wf_path_entry(#[trigger] files[k], root),
    ensures
        parse_lines(
            encode_all(files.map_values(|fp: FilePathV| pathinfo_spec(fp, root))),
            st,
        ) == Ok::<ParseStV, ParseErrV>(
            ParseStV {
                root: st.root,
                gen: st.gen,
                curr: st.curr,
                groups: base.push(GroupV { checksum: c, files: gpre + files }),
            },
        ),
    decreases files.len(),
{
    reveal_with_fuel(parse_lines, 2);
    let lines = encode_all(files.map_values(|fp: FilePathV| pathinfo_spec(fp, root)));
    if files.len() == 0 {
        assert(lines =~= Seq::<Seq<char>>::empty());
        assert(gpre + files =~= gpre);
        assert(st == ParseStV {
            root: st.root,
            gen: st.gen,
            curr: st.curr,
            groups: base.push(GroupV { checksum: c, files: gpre + files }),
        });
    } else {
        let f0 = files[0];
        assert(wf_path_entry(f0, root));
        let rel = strip_prefix_spec(f0.path, root);
        crate::fileutil::lemma_join_strip(f0.path, root);
        let line0 = pathinfo_spec(f0, root);
        assert(normalize_path_spec(f0.path, true, root) == Some(rel));
        // the decoded line comes back as written
        match f0.op {
            FileOpV::Keep => {
                lemma_rt_keep(rel);
            },
            FileOpV::Delete => {
                lemma_rt_delete(rel);
            },
            FileOpV::Symlink { source } => {
                match source {
                    Some(src) => {
                        lemma_rt_symlink_some(rel, src);
                    },
                    None => {
                        lemma_rt_symlink_none(rel);
                    },
                }
            },
        }
        assert(decode_spec(encode_spec(line0)) == Ok::<LineV, ()>(line0));
        // the step upserts the entry into the group under construction
        reveal_strlit("keep");
        reveal_strlit("symlink");
        reveal_strlit("delete");
        let fp0 = FilePathV { path: f0.path, op: f0.op };
        assert(fp0 == f0);
        assert(normalize_path_spec(rel, false, root) == Some(f0.path));
        let bi = base.len() as int;
        assert(st.groups[bi].checksum == c);
        assert forall|j: int| 0 <= j < bi implies (#[trigger] st.groups[j]).checksum != c by {
            assert(st.groups[j] == base[j]);
        }
        lemma_upsert_found(st.groups, c, f0, bi);
        let g1 = GroupV { checksum: c, files: gpre.push(f0) };
        assert(st.groups[bi].files == gpre);
        assert(upsert_spec(st.groups, c, f0) =~= base.push(g1));
        let st1 = ParseStV { root: st.root, gen: st.gen, curr: st.curr, groups: base.push(g1) };
        assert(parse_step(st, line0) == Ok::<ParseStV, ParseErrV>(st1));
        // chain the remaining entries
        assert(forall|k: int|
            0 <= k < files.drop_first().len() ==> files.drop_first()[k] == files[k + 1]);
        lemma_parse_entries(files.drop_first(), c, root, base, gpre.push(f0), st1);
        assert(lines[0] == encode_spec(line0));
        assert(lines.drop_first() =~= encode_all(
            files.drop_first().map_values(|fp: FilePathV| pathinfo_spec(fp, root)),
        ));
        assert(gpre.push(f0) + files.drop_first() =~= gpre + files);
    }
}

proof fn lemma_parse_group(g: GroupV, root: Seq<char>, st: ParseStV)
    requires
        st.root == Some(root),
        forall|j: int| 0 <= j < st.groups.len() ==> (#[trigger] st.groups[j]).checksum
            != g.checksum,
        wf_group(g, root),
        spec_is_absolute(root),
        clean_path(root),
    ensures
        parse_lines(encode_all(group_lines_spec(g, root)), st) == Ok::<ParseStV, ParseErrV>(
            ParseStV {
                root: st.root,
                gen: st.gen,
                curr: Some(g.checksum),
                groups: st.groups.push(g),
            },
        ),
{
    reveal_with_fuel(parse_lines, 2);
    let h = dec_rep(g.checksum as nat);
    crate::strutil::lemma_dec_rep_val(g.checksum as nat);
    lemma_rt_checksum(h);
    let glines = group_lines_spec(g, root);
    let entry_lines = g.files.map_values(|fp: FilePathV| pathinfo_spec(fp, root));
    assert(encode_all(glines) =~= seq![encode_spec(LineV::Checksum(h))] + encode_all(entry_lines)
        + seq![encode_spec(LineV::Blank)]);
    // the checksum line opens the group
    let st_a = ParseStV { root: st.root, gen: st.gen, curr: Some(g.checksum), groups: st.groups };
    assert(parse_step(st, LineV::Checksum(h)) == Ok::<ParseStV, ParseErrV>(st_a)) by {
        assert(is_digits(h) && dec_val(h) == g.checksum as nat);
    }
    // the first entry creates the group, the rest extend it
    let f0 = g.files[0];
    assert(wf_path_entry(f0, root));
    let rel = strip_prefix_spec(f0.path, root);
    crate::fileutil::lemma_join_strip(f0.path, root);
    let line0 = pathinfo_spec(f0, root);
    match f0.op {
        FileOpV::Keep => {
            lemma_rt_keep(rel);
        },
        FileOpV::Delete => {
            lemma_rt_delete(rel);
        },
        FileOpV::Symlink { source } => {
            match source {
                Some(src) => {
                    lemma_rt_symlink_some(rel, src);
                },
                None => {
                    lemma_rt_symlink_none(rel);
                },
            }
        },
    }
    reveal_strlit("keep");
    reveal_strlit("symlink");
    reveal_strlit("delete");
    assert(decode_spec(encode_spec(line0)) == Ok::<LineV, ()>(line0));
    assert(normalize_path_spec(rel, false, root) == Some(f0.path));
    lemma_upsert_absent(st.groups, g.checksum, f0);
    let g1 = GroupV { checksum: g.checksum, files: seq![f0] };
    let st_b = ParseStV {
        root: st.root,
        gen: st.gen,
        curr: Some(g.checksum),
        groups: st.groups.push(g1),
    };
    assert(parse_step(st_a, line0) == Ok::<ParseStV, ParseErrV>(st_b));
    // remaining entries
    assert(forall|k: int|
        0 <= k < g.files.drop_first().len() ==> g.files.drop_first()[k] == g.files[k + 1]);
    lemma_parse_entries(g.files.drop_first(), g.checksum, root, st.groups, seq![f0], st_b);
    let st_c = ParseStV {
        root: st.root,
        gen: st.gen,
        curr: Some(g.checksum),
        groups: st.groups.push(GroupV { checksum: g.checksum, files: seq![f0] + g.files.drop_first() }),
    };
    assert(seq![f0] + g.files.drop_first() =~= g.files);
    assert(st_c.groups =~= st.groups.push(g));
    // assemble: checksum line, entry lines, closing blank
    let tail_lines = encode_all(entry_lines) + seq![encode_spec(LineV::Blank)];
    lemma_parse_lines_concat(
        seq![encode_spec(LineV::Checksum(h))],
        tail_lines,
        st,
    );
    assert(seq![encode_spec(LineV::Checksum(h))] + tail_lines =~= encode_all(glines));
    assert(seq![encode_spec(LineV::Checksum(h))].drop_first() =~= Seq::<Seq<char>>::empty());
    assert(parse_lines(seq![encode_spec(LineV::Checksum(h))], st) == Ok::<ParseStV, ParseErrV>(
        st_a,
    ));
    let elines = encode_all(entry_lines);
    assert(elines.len() > 0);
    assert(elines[0] == encode_spec(line0));
    lemma_parse_lines_concat(elines, seq![encode_spec(LineV::Blank)], st_a);
    // entry lines from st_a: first entry then the rest, as one list
    lemma_parse_lines_concat(seq![elines[0]], elines.drop_first(), st_a);
    assert(seq![elines[0]] + elines.drop_first() =~= elines);
    assert(seq![elines[0]].drop_first() =~= Seq::<Seq<char>>::empty());
    assert(parse_lines(seq![elines[0]], st_a) == Ok::<ParseStV, ParseErrV>(st_b));
    assert(elines.drop_first() =~= encode_all(
        g.files.drop_first().map_values(|fp: FilePathV| pathinfo_spec(fp, root)),
    ));
    assert(parse_lines(elines, st_a) == Ok::<ParseStV, ParseErrV>(st_c));
    lemma_rt_blank();
    assert(parse_lines(seq![encode_spec(LineV::Blank)], st_c) == Ok::<ParseStV, ParseErrV>(st_c))
        by {
        assert(seq![encode_spec(LineV::Blank)].drop_first() =~= Seq::<Seq<char>>::empty());
        assert(parse_step(st_c, LineV::Blank) == Ok::<ParseStV, ParseErrV>(st_c));
    }
    assert(parse_lines(encode_all(glines), st) == Ok::<ParseStV, ParseErrV>(st_c));
}

proof fn lemma_parse_groups(gs: Seq<GroupV>, root: Seq<char>, st: ParseStV)
    requires
        st.root == Some(root),
        spec_is_absolute(root),
        clean_path(root),
        forall|i: int| 0 <= i < gs.len() ==> wf_group(#[trigger] gs[i], root),
        forall|i: int, j: int|
            0 <= i < j < gs.len() ==> (#[trigger] gs[i]).checksum != (#[trigger] gs[j]).checksum,
        forall|i: int, j: int|
            0 <= i < st.groups.len() && 0 <= j < gs.len() ==> (#[trigger] st.groups[i]).checksum
                != (#[trigger] gs[j]).checksum,
    ensures
        parse_lines(encode_all(groups_lines_spec(gs, root)), st) matches Ok(st2) && st2.root
            == st.root && st2.gen == st.gen && st2.groups == st.groups + gs,
    decreases gs.len(),
{
    if gs.len() == 0 {
        assert(groups_lines_spec(gs, root) =~= Seq::<LineV>::empty());
        assert(encode_all(groups_lines_spec(gs, root)) =~= Seq::<Seq<char>>::empty());
        assert(st.groups + gs =~= st.groups);
    } else {
        let g0 = gs[0];
        assert(wf_group(g0, root));
        lemma_parse_group(g0, root, st);
        let st1 = ParseStV {
            root: st.root,
            gen: st.gen,
            curr: Some(g0.checksum),
            groups: st.groups.push(g0),
        };
        let rest = gs.drop_first();
        assert(forall|k: int| 0 <= k < rest.len() ==> rest[k] == gs[k + 1]);
        assert forall|i: int, j: int|
            0 <= i < st1.groups.len() && 0 <= j < rest.len() implies (#[trigger] st1.groups[i]).checksum
            != (#[trigger] rest[j]).checksum by {
            if i < st.groups.len() {
                assert(st1.groups[i] == st.groups[i]);
            } else {
                assert(st1.groups[i] == g0);
            }
            assert(rest[j] == gs[j + 1]);
        }
        lemma_parse_groups(rest, root, st1);
        assert(encode_all(groups_lines_spec(gs, root)) =~= encode_all(group_lines_spec(g0, root))
            + encode_all(groups_lines_spec(rest, root)));
        lemma_parse_lines_concat(
            encode_all(group_lines_spec(g0, root)),
            encode_all(groups_lines_spec(rest, root)),
            st,
        );
        assert(st.groups.push(g0) + rest =~= st.groups + gs);
    }
}

proof fn lemma_count_two(s: Seq<GroupV>, i: int, j: int)
    requires
        0 <= i < j < s.len(),
        s[i] == s[j],
    ensures
        s.to_multiset().count(s[i]) >= 2,
{
    broadcast use vstd::seq_lib::group_to_multiset_ensures, vstd::multiset::group_multiset_axioms;

    let s2 = s.remove(j);
    assert(s2.to_multiset() =~= s.to_multiset().remove(s[j]));
    assert(s2[i] == s[i]);
    assert(s2.contains(s[i]));
    assert(s2.to_multiset().count(s[i]) > 0);
}

proof fn lemma_gs_carry_wf(snap: SnapshotV, gs: Seq<GroupV>)
    requires
        wf_snapshot(snap),
        gs.to_multiset() == snap.duplicates.to_multiset(),
    ensures
        forall|i: int| 0 <= i < gs.len() ==> wf_group(#[trigger] gs[i], snap.rootdir),
        forall|i: int, j: int|
            0 <= i < j < gs.len() ==> (#[trigger] gs[i]).checksum != (#[trigger] gs[j]).checksum,
{
    broadcast use vstd::seq_lib::group_to_multiset_ensures, vstd::multiset::group_multiset_axioms;

    let dups = snap.duplicates;
    assert forall|i: int| 0 <= i < gs.len() implies wf_group(#[trigger] gs[i], snap.rootdir) by {
        assert(gs.contains(gs[i]));
        assert(gs.to_multiset().count(gs[i]) > 0);
        assert(dups.contains(gs[i]));
        let k = choose|k: int| 0 <= k < dups.len() && dups[k] == gs[i];
        assert(wf_group(dups[k], snap.rootdir));
    }
    assert forall|i: int, j: int|
        0 <= i < j < gs.len() implies (#[trigger] gs[i]).checksum != (
    #[trigger] gs[j]).checksum by {
        if gs[i].checksum == gs[j].checksum {
            if gs[i] == gs[j] {
                lemma_count_two(gs, i, j);
                assert(dups.to_multiset().count(gs[i]) >= 2);
                assert(dups.contains(gs[i]));
                let k = choose|k: int| 0 <= k < dups.len() && dups[k] == gs[i];
                let d2 = dups.remove(k);
                assert(d2.to_multiset() =~= dups.to_multiset().remove(dups[k]));
                assert(d2.to_multiset().count(gs[i]) >= 1);
                assert(d2.contains(gs[i]));
                let l = choose|l: int| 0 <= l < d2.len() && d2[l] == gs[i];
                if l < k {
                    assert(d2[l] == dups[l]);
                    assert(dups[l].checksum == dups[k].checksum);
                } else {
                    assert(d2[l] == dups[l + 1]);
                    assert(dups[l + 1].checksum == dups[k].checksum);
                }
                assert(false);
            } else {
                assert(gs.contains(gs[i]) && gs.contains(gs[j]));
                assert(gs.to_multiset().count(gs[i]) > 0);
                assert(gs.to_multiset().count(gs[j]) > 0);
                assert(dups.contains(gs[i]) && dups.contains(gs[j]));
                let k = choose|k: int| 0 <= k < dups.len() && dups[k] == gs[i];
                let l = choose|l: int| 0 <= l < dups.len() && dups[l] == gs[j];
                assert(k != l);
                assert(dups[k].checksum != dups[l].checksum);
                assert(false);
            }
        }
    }
}

/// Parsing inverts rendering: rendering a well-formed snapshot with its
/// groups in any order and parsing the text back yields the same root,
/// the same timestamp, and exactly those groups; an empty snapshot
/// renders as no lines at all.
#[verifier::rlimit(60)]
pub proof fn lemma_parse_render(snap: SnapshotV, gs: Seq<GroupV>)
    requires
        wf_snapshot(snap),
        gs.to_multiset() == snap.duplicates.to_multiset(),
    ensures
        gs.len() == 0 ==> render_strings_spec(snap, gs) == Seq::<Seq<char>>::empty(),
        gs.len() > 0 ==> parse_spec(render_strings_spec(snap, gs)) == Ok::<SnapshotV, ParseErrV>(
            SnapshotV {
                rootdir: snap.rootdir,
                generated_at: snap.generated_at,
                duplicates: gs,
            },
        ),
{
    if gs.len() == 0 {
        assert(render_lines_spec(snap, gs) =~= Seq::<LineV>::empty());
        assert(render_strings_spec(snap, gs) =~= Seq::<Seq<char>>::empty());
    } else {
        lemma_gs_carry_wf(snap, gs);
        let root = snap.rootdir;
        let header = seq![
            LineV::MetaData { key: "Root Directory"@, val: root },
            LineV::MetaData { key: "Generated at"@, val: snap.generated_at },
            LineV::Blank,
        ];
        let all = render_lines_spec(snap, gs);
        assert(all == header + groups_lines_spec(gs, root) + help_lines_spec());
        assert(encode_all(all) =~= encode_all(header) + encode_all(groups_lines_spec(gs, root))
            + encode_all(help_lines_spec()));
        // the header: root metadata, timestamp metadata, a blank
        reveal_strlit("Root Directory");
        reveal_strlit("Generated at");
        assert(root.len() > 0);
        assert(!is_ws(root[0]));
        crate::strutil::lemma_trim_of_trim_stable(root);
        assert("Root Directory"@.len() == 14);
        assert forall|j: int| 0 <= j < "Root Directory"@.len() implies "Root Directory"@[j]
            != ':' by {}
        lemma_rt_metadata("Root Directory"@, root);
        assert("Generated at"@.len() == 12);
        assert forall|j: int| 0 <= j < "Generated at"@.len() implies "Generated at"@[j] != ':'
            by {}
        lemma_rt_metadata("Generated at"@, snap.generated_at);
        lemma_rt_blank();
        reveal_with_fuel(parse_lines, 5);
        let st0 = init_state();
        let st_r = ParseStV { root: Some(root), gen: None, curr: None, groups: Seq::empty() };
        let st_h = ParseStV {
            root: Some(root),
            gen: Some(snap.generated_at),
            curr: None,
            groups: Seq::empty(),
        };
        assert(parse_step(st0, header[0]) == Ok::<ParseStV, ParseErrV>(st_r));
        assert(parse_step(st_r, header[1]) == Ok::<ParseStV, ParseErrV>(st_h)) by {
            assert("Generated at"@ != "Root Directory"@) by {
                assert("Generated at"@.len() != "Root Directory"@.len());
            }
        }
        assert(parse_step(st_h, header[2]) == Ok::<ParseStV, ParseErrV>(st_h));
        assert(encode_all(header).len() == 3);
        assert(encode_all(header)[0] == encode_spec(header[0]));
        assert(encode_all(header)[1] == encode_spec(header[1]));
        assert(encode_all(header)[2] == encode_spec(header[2]));
        assert(encode_all(header).drop_first() =~= seq![
            encode_spec(header[1]),
            encode_spec(header[2]),
        ]);
        assert(encode_all(header).drop_first().drop_first() =~= seq![encode_spec(header[2])]);
        assert(encode_all(header).drop_first().drop_first().drop_first()
            =~= Seq::<Seq<char>>::empty());
        assert(parse_lines(encode_all(header), st0) == Ok::<ParseStV, ParseErrV>(st_h));
        // the groups
        lemma_parse_groups(gs, root, st_h);
        let st_g = match parse_lines(encode_all(groups_lines_spec(gs, root)), st_h) {
            Ok(st2) => st2,
            Err(_) => st_h,
        };
        assert(st_g.root == Some(root) && st_g.gen == Some(snap.generated_at) && st_g.groups
            =~= gs);
        // the help block
        lemma_help_roundtrip();
        lemma_parse_comments(help_lines_spec(), st_g);
        // the whole document
        lemma_parse_lines_concat(
            encode_all(header),
            encode_all(groups_lines_spec(gs, root)) + encode_all(help_lines_spec()),
            st0,
        );
        lemma_parse_lines_concat(
            encode_all(groups_lines_spec(gs, root)),
            encode_all(help_lines_spec()),
            st_h,
        );
        assert(encode_all(all) =~= encode_all(header) + (encode_all(groups_lines_spec(gs, root))
            + encode_all(help_lines_spec())));
        assert(parse_lines(encode_all(all), st0) == Ok::<ParseStV, ParseErrV>(st_g));
        assert(st_g.groups == gs);
    }
}

} // verus!
