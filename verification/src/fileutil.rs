//! Path utilities.
//!
//! Paths are plain strings; their meaning is given by a component model:
//! a path is absolute when it begins with `/`, and its segments are the
//! non-empty pieces between `/` separators. Ancestry, prefix stripping
//! and joining are defined over that model, mirroring the component
//! semantics of the platform's path type.

use vstd::prelude::*;
use vstd::string::*;
use crate::error::AppError;
use crate::strutil::find_char;
use crate::strutil::substring;

verus! {

/// Whether a path string is absolute, i.e. begins with `/`.
pub open spec fn spec_is_absolute(s: Seq<char>) -> bool {
    s.len() > 0 && s[0] == '/'
}

/// Tests whether a path string is absolute.
pub fn is_absolute(s: &str) -> (r: bool)
    ensures
        r == spec_is_absolute(s@),
{
    if s.unicode_len() == 0 {
        false
    } else {
        s.get_char(0) == '/'
    }
}

/// Index of the first occurrence of `c` in `s`, or `s.len()` when absent.
pub open spec fn first_idx(s: Seq<char>, c: char) -> int
    decreases s.len(),
{
    if s.len() == 0 {
        0
    } else if s[0] == c {
        0
    } else {
        1 + first_idx(s.drop_first(), c)
    }
}

/// `first_idx` is the position of the first occurrence.
pub proof fn lemma_first_idx(s: Seq<char>, c: char, k: int)
    requires
        0 <= k <= s.len(),
        forall|j: int| 0 <= j < k ==> s[j] != c,
        k == s.len() || s[k] == c,
    ensures
        first_idx(s, c) == k,
    decreases k,
{
    if s.len() == 0 {
    } else if k == 0 {
    } else {
        lemma_first_idx(s.drop_first(), c, k - 1);
    }
}

/// The segments of a path string: the non-empty pieces between `/`
/// separators.
pub open spec fn segments(s: Seq<char>) -> Seq<Seq<char>>
    decreases s.len(),
{
    if s.len() == 0 {
        Seq::empty()
    } else {
        let i = first_idx(s, '/');
        if i <= 0 {
            segments(s.drop_first())
        } else if i >= s.len() {
            seq![s]
        } else {
            seq![s.take(i)] + segments(s.skip(i + 1))
        }
    }
}

/// A well-formed segment sequence: every segment is non-empty and
/// carries no separator.
pub open spec fn seg_wf(segs: Seq<Seq<char>>) -> bool {
    forall|i: int| 0 <= i < segs.len() ==> (#[trigger] segs[i]).len() > 0 && forall|j: int|
        0 <= j < segs[i].len() ==> segs[i][j] != '/'
}

/// The segments of any string are well formed.
pub proof fn lemma_segments_wf(s: Seq<char>)
    ensures
        seg_wf(segments(s)),
    decreases s.len(),
{
    if s.len() == 0 {
    } else {
        let i = first_idx(s, '/');
        lemma_first_idx_bounds(s, '/');
        if i == 0 {
            lemma_segments_wf(s.drop_first());
        } else if i == s.len() {
            assert(forall|j: int| 0 <= j < s.len() ==> s[j] != '/') by {
                lemma_first_idx_chars(s, '/');
            }
        } else {
            lemma_segments_wf(s.skip(i + 1));
            lemma_first_idx_chars(s, '/');
            assert(seg_wf(seq![s.take(i)] + segments(s.skip(i + 1))));
        }
    }
}

/// `first_idx` lies between 0 and the length.
proof fn lemma_first_idx_bounds(s: Seq<char>, c: char)
    ensures
        0 <= first_idx(s, c) <= s.len(),
    decreases s.len(),
{
    if s.len() > 0 && s[0] != c {
        lemma_first_idx_bounds(s.drop_first(), c);
    }
}

/// Characters before `first_idx` differ from `c`; the character there,
/// if any, is `c`.
proof fn lemma_first_idx_chars(s: Seq<char>, c: char)
    ensures
        forall|j: int| 0 <= j < first_idx(s, c) ==> s[j] != c,
        first_idx(s, c) < s.len() ==> s[first_idx(s, c)] == c,
    decreases s.len(),
{
    if s.len() > 0 && s[0] != c {
        lemma_first_idx_chars(s.drop_first(), c);
        lemma_first_idx_bounds(s.drop_first(), c);
        assert forall|j: int| 0 <= j < first_idx(s, c) implies s[j] != c by {
            if j > 0 {
                assert(s.drop_first()[j - 1] != c);
            }
        }
    }
}

/// Joins segments with `/` separators, without a leading separator.
pub open spec fn join_segs(segs: Seq<Seq<char>>) -> Seq<char>
    decreases segs.len(),
{
    if segs.len() == 0 {
        Seq::empty()
    } else if segs.len() == 1 {
        segs[0]
    } else {
        segs[0] + seq!['/'] + join_segs(segs.drop_first())
    }
}

/// Joining distributes over concatenation of non-empty segment lists.
pub proof fn lemma_join_segs_concat(a: Seq<Seq<char>>, b: Seq<Seq<char>>)
    requires
        a.len() > 0,
        b.len() > 0,
    ensures
        join_segs(a + b) == join_segs(a) + seq!['/'] + join_segs(b),
    decreases a.len(),
{
    if a.len() == 1 {
        assert((a + b).drop_first() =~= b);
        assert((a + b)[0] == a[0]);
        assert(join_segs(a + b) == a[0] + seq!['/'] + join_segs(b));
    } else {
        lemma_join_segs_concat(a.drop_first(), b);
        assert((a + b).drop_first() =~= a.drop_first() + b);
        assert(join_segs(a + b) == (a + b)[0] + seq!['/'] + join_segs(a.drop_first() + b));
        assert((a + b)[0] == a[0]);
        assert(a[0] + seq!['/'] + (join_segs(a.drop_first()) + seq!['/'] + join_segs(b)) =~= (a[0]
            + seq!['/'] + join_segs(a.drop_first())) + seq!['/'] + join_segs(b));
    }
}

/// The view of a vector of owned segment strings.
pub open spec fn seg_views(v: Seq<String>) -> Seq<Seq<char>> {
    v.map_values(|x: String| x@)
}

/// Splits a path string into its segments.
pub fn segments_of(s: &str) -> (r: Vec<String>)
    ensures
        seg_views(r@) == segments(s@),
{
    let v = segments_from(s, 0);
    proof {
        assert(s@.skip(0) == s@);
    }
    v
}

fn segments_from(s: &str, from: usize) -> (r: Vec<String>)
    requires
        from <= s@.len(),
    ensures
        seg_views(r@) == segments(s@.skip(from as int)),
    decreases s@.len() - from,
{
    let ghost t = s@.skip(from as int);
    let n = s.unicode_len();
    if from == n {
        let r: Vec<String> = Vec::new();
        proof {
            assert(seg_views(r@) =~= segments(t));
        }
        return r;
    }
    match find_char(s, from, '/') {
        None => {
            proof {
                lemma_first_idx(t, '/', t.len() as int);
            }
            let piece = substring(s, from, n);
            let mut r: Vec<String> = Vec::new();
            r.push(piece);
            proof {
                assert(t.len() > 0);
                assert(seg_views(r@) =~= seq![t]);
            }
            r
        },
        Some(i) => {
            proof {
                assert forall|j: int| 0 <= j < i - from implies t[j] != '/' by {
                    assert(t[j] == s@[from + j]);
                }
                assert(t[i - from] == '/');
                lemma_first_idx(t, '/', i - from);
            }
            if i == from {
                let r = segments_from(s, from + 1);
                proof {
                    assert(t.drop_first() =~= s@.skip(from + 1));
                }
                r
            } else {
                let piece = substring(s, from, i);
                let rest = segments_from(s, i + 1);
                let mut r: Vec<String> = Vec::new();
                r.push(piece);
                let mut k: usize = 0;
                while k < rest.len()
                    invariant
                        0 <= k <= rest.len(),
                        r@.len() == 1 + k,
                        r@[0]@ == s@.subrange(from as int, i as int),
                        forall|m: int| 0 <= m < k ==> r@[m + 1] == rest@[m],
                    decreases rest.len() - k,
                {
                    let piece2 = rest[k].clone();
                    r.push(piece2);
                    k = k + 1;
                }
                proof {
                    assert(t.take(i - from) =~= s@.subrange(from as int, i as int));
                    assert(t.skip(i - from + 1) =~= s@.skip(i + 1));
                    assert(segments(t) == seq![t.take(i - from)] + segments(s@.skip(i + 1)));
                    assert(seg_views(r@) =~= seq![t.take(i - from)] + seg_views(rest@));
                }
                r
            }
        },
    }
}

/// `root` appears among `path`'s ancestors: same absoluteness and the
/// segments of `root` are a prefix of those of `path`.
pub open spec fn within_root_spec(root: Seq<char>, path: Seq<char>) -> bool {
    spec_is_absolute(root) == spec_is_absolute(path) && segments(root).is_prefix_of(
        segments(path),
    )
}

/// `path` lies strictly below `root`.
pub open spec fn strictly_under(path: Seq<char>, root: Seq<char>) -> bool {
    within_root_spec(root, path) && segments(path).len() > segments(root).len()
}

/// Tests whether `rootdir` is one of `path`'s ancestors.
pub fn within_rootdir(rootdir: &str, path: &str) -> (r: bool)
    ensures
        r == within_root_spec(rootdir@, path@),
{
    if is_absolute(rootdir) != is_absolute(path) {
        return false;
    }
    let rs = segments_of(rootdir);
    let ps = segments_of(path);
    if rs.len() > ps.len() {
        proof {
            assert(!segments(rootdir@).is_prefix_of(segments(path@)));
        }
        return false;
    }
    let mut i: usize = 0;
    while i < rs.len()
        invariant
            0 <= i <= rs.len(),
            rs.len() <= ps.len(),
            seg_views(rs@) == segments(rootdir@),
            seg_views(ps@) == segments(path@),
            forall|j: int| 0 <= j < i ==> seg_views(rs@)[j] == seg_views(ps@)[j],
        decreases rs.len() - i,
    {
        if !(rs[i] == ps[i]) {
            proof {
                assert(seg_views(rs@)[i as int] != seg_views(ps@)[i as int]);
                assert(!segments(rootdir@).is_prefix_of(segments(path@)));
            }
            return false;
        }
        i = i + 1;
    }
    proof {
        assert(segments(rootdir@).is_prefix_of(segments(path@))) by {
            assert(seg_views(rs@) =~= seg_views(ps@).subrange(0, rs@.len() as int));
        }
    }
    true
}

/// The remainder of `path` after stripping the leading segments of
/// `base`, joined back into a (relative) string.
pub open spec fn strip_prefix_spec(path: Seq<char>, base: Seq<char>) -> Seq<char> {
    join_segs(segments(path).skip(segments(base).len() as int))
}

/// Joins `rel` onto `base` with a single separator, mirroring path join
/// for a relative right-hand side.
pub open spec fn join_spec(base: Seq<char>, rel: Seq<char>) -> Seq<char> {
    if base.len() == 0 {
        rel
    } else if base.last() == '/' {
        base + rel
    } else {
        base + seq!['/'] + rel
    }
}

/// Joins the segments of `v` from index `k` on with `/` separators.
fn join_from(v: &Vec<String>, k: usize) -> (r: String)
    requires
        k <= v@.len(),
    ensures
        r@ == join_segs(seg_views(v@).skip(k as int)),
    decreases v@.len() - k,
{
    if k == v.len() {
        let r = String::new();
        proof {
            assert(seg_views(v@).skip(k as int) =~= Seq::<Seq<char>>::empty());
        }
        r
    } else if k == v.len() - 1 {
        let r = v[k].clone();
        proof {
            assert(seg_views(v@).skip(k as int) =~= seq![v@[k as int]@]);
        }
        r
    } else {
        let rest = join_from(v, k + 1);
        let r = v[k].clone().concat("/").concat(rest.as_str());
        proof {
            reveal_strlit("/");
            assert(seg_views(v@).skip(k as int).drop_first() =~= seg_views(v@).skip(k + 1));
            assert(seg_views(v@).skip(k as int)[0] == v@[k as int]@);
            assert(r@ =~= v@[k as int]@ + seq!['/'] + join_segs(seg_views(v@).skip(k + 1)));
        }
        r
    }
}

/// Joins a relative path onto a base path.
pub fn path_join(base: &str, rel: &str) -> (r: String)
    ensures
        r@ == join_spec(base@, rel@),
{
    let n = base.unicode_len();
    if n == 0 {
        String::from_str(rel)
    } else if base.get_char(n - 1) == '/' {
        String::from_str(base).concat(rel)
    } else {
        let r = String::from_str(base).concat("/").concat(rel);
        proof {
            reveal_strlit("/");
            assert(r@ =~= base@ + seq!['/'] + rel@);
        }
        r
    }
}

/// A path string in canonical textual form for its segments: a single
/// leading `/` when absolute, single separators, no trailing separator.
pub open spec fn canon_of(s: Seq<char>) -> Seq<char> {
    if spec_is_absolute(s) {
        seq!['/'] + join_segs(segments(s))
    } else {
        join_segs(segments(s))
    }
}

/// A path string that is its own canonical form.
pub open spec fn clean_path(s: Seq<char>) -> bool {
    s == canon_of(s)
}

/// No `.` or `..` segments.
pub open spec fn no_dots(segs: Seq<Seq<char>>) -> bool {
    forall|i: int| 0 <= i < segs.len() ==> #[trigger] segs[i] != seq!['.'] && segs[i] != seq![
        '.',
        '.',
    ]
}

/// Length of the longest common prefix of two segment lists.
pub open spec fn cpl(a: Seq<Seq<char>>, b: Seq<Seq<char>>) -> int
    decreases a.len(),
{
    if a.len() > 0 && b.len() > 0 && a[0] == b[0] {
        1 + cpl(a.drop_first(), b.drop_first())
    } else {
        0
    }
}

proof fn lemma_cpl_facts(a: Seq<Seq<char>>, b: Seq<Seq<char>>)
    ensures
        0 <= cpl(a, b) <= a.len(),
        cpl(a, b) <= b.len(),
        a.take(cpl(a, b)) == b.take(cpl(a, b)),
    decreases a.len(),
{
    if a.len() > 0 && b.len() > 0 && a[0] == b[0] {
        lemma_cpl_facts(a.drop_first(), b.drop_first());
        let k = cpl(a, b);
        assert(a.drop_first().take(k - 1) == b.drop_first().take(k - 1));
        assert(a.take(k) =~= seq![a[0]] + a.drop_first().take(k - 1));
        assert(b.take(k) =~= seq![b[0]] + b.drop_first().take(k - 1));
    } else {
        assert(a.take(0) =~= b.take(0));
    }
}

/// The segment form of the relative path from `b` (a directory) to `a`:
/// one `..` for each segment of `b` past the common prefix, then the
/// remainder of `a`.
pub open spec fn rel_diff(a: Seq<Seq<char>>, b: Seq<Seq<char>>) -> Seq<Seq<char>> {
    let k = cpl(a, b);
    Seq::new((b.len() - k) as nat, |i: int| seq!['.', '.']) + a.skip(k)
}

/// Relies on pathdiff::diff_paths: an absolute path against a relative
/// base comes back unchanged; a relative path against an absolute base
/// yields nothing; for two absolute paths in canonical form without dot
/// segments the result is the component-wise relative path from the base
/// to the path.
#[verifier::external_body]
fn diff_paths_str(path: &str, base: &str) -> (r: Option<String>)
    ensures
        match r {
            Some(p) => {
                &&& !(!spec_is_absolute(path@) && spec_is_absolute(base@))
                &&& (spec_is_absolute(path@) && !spec_is_absolute(base@)) ==> p@ == path@
                &&& (spec_is_absolute(path@) && spec_is_absolute(base@) && clean_path(path@)
                    && clean_path(base@) && no_dots(segments(path@)) && no_dots(segments(base@)))
                    ==> p@ == join_segs(rel_diff(segments(path@), segments(base@)))
            },
            None => {
                &&& !(spec_is_absolute(path@) && !spec_is_absolute(base@))
                &&& !(spec_is_absolute(path@) && spec_is_absolute(base@) && clean_path(path@)
                    && clean_path(base@) && no_dots(segments(path@)) && no_dots(
                    segments(base@),
                ))
            },
        },
{
    pathdiff::diff_paths(std::path::Path::new(path), std::path::Path::new(base)).map(|p|
        p.to_string_lossy().into_owned())
}

/// The parent of a path in the component model: the path without its
/// last segment; none for an empty path or a bare root.
pub open spec fn parent_spec(s: Seq<char>) -> Option<Seq<char>> {
    let segs = segments(s);
    if segs.len() == 0 {
        None
    } else if spec_is_absolute(s) {
        Some(seq!['/'] + join_segs(segs.drop_last()))
    } else {
        Some(join_segs(segs.drop_last()))
    }
}

/// Computes the parent of a path, in canonical form.
pub fn parent_of(s: &str) -> (r: Option<String>)
    ensures
        match r {
            Some(p) => parent_spec(s@) == Some(p@),
            None => parent_spec(s@) is None,
        },
{
    let mut segs = segments_of(s);
    if segs.len() == 0 {
        return None;
    }
    let n = segs.len();
    proof {
        assert(seg_views(segs@).drop_last() =~= seg_views(segs@.drop_last()));
    }
    segs.pop();
    let tail = join_from(&segs, 0);
    proof {
        assert(seg_views(segs@).skip(0) == seg_views(segs@));
    }
    if is_absolute(s) {
        let r = String::from_str("/").concat(tail.as_str());
        proof {
            reveal_strlit("/");
            assert(r@ =~= seq!['/'] + join_segs(segments(s@).drop_last()));
        }
        Some(r)
    } else {
        Some(tail)
    }
}

/// Computes the normalized source path for a symlink.
///
/// An explicit source (one the user wrote) is returned unchanged,
/// preserving its absolute or relative form. An implicit source is
/// turned into the relative path from the target's parent directory to
/// the source; this fails when the target has no parent or when the
/// source is not absolute.
pub fn normalize_symlink_src_path(target: &str, source: &str, is_explicit: bool) -> (r: Result<
    String,
    AppError,
>)
    ensures
        r matches Err(e) ==> e matches AppError::Fs(_),
        is_explicit ==> (r matches Ok(p) && p@ == source@),
        !is_explicit ==> match parent_spec(target@) {
            None => r matches Err(e) && e matches AppError::Fs(_),
            Some(par) => {
                &&& (!spec_is_absolute(source@) && spec_is_absolute(par)) ==> (r matches Err(e)
                    && e matches AppError::Fs(_))
                &&& (spec_is_absolute(source@) && spec_is_absolute(par) && clean_path(source@)
                    && clean_path(par) && no_dots(segments(source@)) && no_dots(segments(par)))
                    ==> (r matches Ok(p) && p@ == join_segs(
                    rel_diff(segments(source@), segments(par)),
                ))
            },
        },
{
    if is_explicit {
        Ok(String::from_str(source))
    } else {
        match parent_of(target) {
            None => Err(
                AppError::Fs(
                    String::from_str("Couldn't compute parent dir of the target path: ").concat(
                        target,
                    ),
                ),
            ),
            Some(par) => match diff_paths_str(source, par.as_str()) {
                Some(d) => Ok(d),
                None => Err(
                    AppError::Fs(
                        String::from_str("Source path is not absolute: ").concat(source),
                    ),
                ),
            },
        }
    }
}

/// Prepending a `/` does not change the segments.
pub proof fn lemma_segments_slash(t: Seq<char>)
    ensures
        segments(seq!['/'] + t) == segments(t),
{
    let s = seq!['/'] + t;
    assert(s[0] == '/');
    assert(first_idx(s, '/') == 0);
    assert(s.drop_first() =~= t);
}

/// Splitting a joined well-formed segment list gives the list back.
pub proof fn lemma_segments_of_join(x: Seq<Seq<char>>)
    requires
        seg_wf(x),
    ensures
        segments(join_segs(x)) == x,
    decreases x.len(),
{
    if x.len() == 0 {
        assert(segments(join_segs(x)) =~= x);
    } else if x.len() == 1 {
        let s = x[0];
        assert(s.len() > 0);
        lemma_first_idx(s, '/', s.len() as int);
        assert(segments(s) =~= seq![s]);
        assert(segments(join_segs(x)) =~= x);
    } else {
        let s = join_segs(x);
        let rest = x.drop_first();
        assert(seg_wf(rest)) by {
            assert(forall|i: int| 0 <= i < rest.len() ==> rest[i] == x[i + 1]);
        }
        lemma_segments_of_join(rest);
        let i = x[0].len() as int;
        assert(s =~= x[0] + seq!['/'] + join_segs(rest));
        assert forall|j: int| 0 <= j < i implies s[j] != '/' by {
            assert(s[j] == x[0][j]);
        }
        assert(s[i] == '/');
        lemma_first_idx(s, '/', i);
        assert(i > 0);
        assert(i < s.len());
        assert(s.take(i) =~= x[0]);
        assert(s.skip(i + 1) =~= join_segs(rest));
        assert(segments(s) == seq![x[0]] + rest);
        assert(seq![x[0]] + rest =~= x);
    }
}

/// A joined well-formed segment list is non-empty, does not begin or end
/// with a separator.
pub proof fn lemma_join_segs_shape(x: Seq<Seq<char>>)
    requires
        seg_wf(x),
        x.len() > 0,
    ensures
        join_segs(x).len() > 0,
        join_segs(x)[0] != '/',
        join_segs(x).last() != '/',
    decreases x.len(),
{
    if x.len() == 1 {
        assert(x[0].len() > 0);
    } else {
        let rest = x.drop_first();
        assert(seg_wf(rest)) by {
            assert(forall|i: int| 0 <= i < rest.len() ==> rest[i] == x[i + 1]);
        }
        lemma_join_segs_shape(rest);
        assert(join_segs(x) =~= x[0] + seq!['/'] + join_segs(rest));
        assert(join_segs(x)[0] == x[0][0]);
        assert(join_segs(x).last() == join_segs(rest).last());
    }
}

/// Joining the stripped remainder back onto the root restores the path,
/// for canonical absolute paths.
pub proof fn lemma_join_strip(path: Seq<char>, root: Seq<char>)
    requires
        clean_path(path),
        clean_path(root),
        spec_is_absolute(path),
        spec_is_absolute(root),
        strictly_under(path, root),
    ensures
        join_spec(root, strip_prefix_spec(path, root)) == path,
        !spec_is_absolute(strip_prefix_spec(path, root)),
        strip_prefix_spec(path, root).len() > 0,
{
    let ps = segments(path);
    let rs = segments(root);
    let k = rs.len() as int;
    let rel = strip_prefix_spec(path, root);
    lemma_segments_wf(path);
    lemma_segments_wf(root);
    assert(seg_wf(ps.skip(k))) by {
        assert(forall|i: int| 0 <= i < ps.skip(k).len() ==> ps.skip(k)[i] == ps[i + k]);
    }
    lemma_join_segs_shape(ps.skip(k));
    if k == 0 {
        assert(root =~= seq!['/']);
        assert(root.last() == '/');
        assert(ps.skip(0) == ps);
        assert(join_spec(root, rel) =~= seq!['/'] + join_segs(ps));
    } else {
        assert(seg_wf(rs));
        lemma_join_segs_shape(rs);
        assert(root =~= seq!['/'] + join_segs(rs));
        assert(root.last() == join_segs(rs).last());
        assert(root.last() != '/');
        assert(ps.take(k) =~= rs);
        lemma_join_segs_concat(ps.take(k), ps.skip(k));
        assert(ps.take(k) + ps.skip(k) =~= ps);
        assert(join_segs(ps) == join_segs(rs) + seq!['/'] + rel);
        assert(join_spec(root, rel) =~= seq!['/'] + join_segs(ps));
    }
}

/// Lexically resolves `.` and `..` segments of `rest` against the stack
/// of segments already walked in `acc`.
pub open spec fn resolve_dots(acc: Seq<Seq<char>>, rest: Seq<Seq<char>>) -> Seq<Seq<char>>
    decreases rest.len(),
{
    if rest.len() == 0 {
        acc
    } else if rest[0] == seq!['.'] {
        resolve_dots(acc, rest.drop_first())
    } else if rest[0] == seq!['.', '.'] {
        resolve_dots(if acc.len() > 0 {
            acc.drop_last()
        } else {
            acc
        }, rest.drop_first())
    } else {
        resolve_dots(acc.push(rest[0]), rest.drop_first())
    }
}

proof fn lemma_resolve_nodots(acc: Seq<Seq<char>>, x: Seq<Seq<char>>, rest: Seq<Seq<char>>)
    requires
        no_dots(x),
    ensures
        resolve_dots(acc, x + rest) == resolve_dots(acc + x, rest),
    decreases x.len(),
{
    if x.len() == 0 {
        assert(x + rest =~= rest);
        assert(acc + x =~= acc);
    } else {
        assert((x + rest)[0] == x[0]);
        assert(x[0] != seq!['.'] && x[0] != seq!['.', '.']);
        assert((x + rest).drop_first() =~= x.drop_first() + rest);
        assert(no_dots(x.drop_first())) by {
            assert(forall|i: int| 0 <= i < x.drop_first().len() ==> x.drop_first()[i] == x[i + 1]);
        }
        lemma_resolve_nodots(acc.push(x[0]), x.drop_first(), rest);
        assert(acc.push(x[0]) + x.drop_first() =~= acc + x);
    }
}

/// `m` parent segments in a row.
pub open spec fn updots(m: int) -> Seq<Seq<char>> {
    Seq::new(m as nat, |i: int| seq!['.', '.'])
}

proof fn lemma_resolve_updots(acc: Seq<Seq<char>>, m: int, rest: Seq<Seq<char>>)
    requires
        0 <= m <= acc.len(),
    ensures
        resolve_dots(acc, updots(m) + rest) == resolve_dots(acc.take(acc.len() - m), rest),
    decreases m,
{
    if m == 0 {
        assert(updots(0) + rest =~= rest);
        assert(acc.take(acc.len() as int) =~= acc);
    } else {
        let x = updots(m) + rest;
        assert(x[0] == seq!['.', '.']);
        assert(x[0] != seq!['.']) by {
            assert(x[0].len() == 2);
        }
        assert(acc.len() > 0);
        assert(x.drop_first() =~= updots(m - 1) + rest);
        lemma_resolve_updots(acc.drop_last(), m - 1, rest);
        assert(acc.drop_last().take(acc.drop_last().len() - (m - 1)) =~= acc.take(
            acc.len() - m,
        ));
    }
}

/// An implicit symlink source path resolves back to the source: joining
/// the relative path computed from the target's parent onto that parent
/// and resolving dot segments yields the source's segments again.
///
/// Holds for canonical absolute paths without dot segments, whenever the
/// source is not the target's parent directory itself.
pub proof fn lemma_symlink_src_path_resolves(source: Seq<char>, target: Seq<char>)
    requires
        spec_is_absolute(source),
        spec_is_absolute(target),
        clean_path(source),
        clean_path(target),
        no_dots(segments(source)),
        no_dots(segments(target)),
        segments(target).len() > 0,
        segments(source) != segments(target).drop_last(),
    ensures
        ({
            let b = segments(target).drop_last();
            let par = seq!['/'] + join_segs(b);
            let rel = join_segs(rel_diff(segments(source), b));
            resolve_dots(Seq::empty(), segments(join_spec(par, rel))) == segments(source)
        }),
{
    let a = segments(source);
    let ts = segments(target);
    let b = ts.drop_last();
    let par = seq!['/'] + join_segs(b);
    lemma_segments_wf(source);
    lemma_segments_wf(target);
    assert(seg_wf(b)) by {
        assert(forall|i: int| 0 <= i < b.len() ==> b[i] == ts[i]);
    }
    assert(seg_wf(a));
    assert(no_dots(b)) by {
        assert(forall|i: int| 0 <= i < b.len() ==> b[i] == ts[i]);
    }
    lemma_cpl_facts(a, b);
    let k = cpl(a, b);
    let m = b.len() - k;
    let rd = rel_diff(a, b);
    assert(rd =~= updots(m) + a.skip(k));
    assert(seg_wf(a.skip(k))) by {
        assert(forall|i: int| 0 <= i < a.skip(k).len() ==> a.skip(k)[i] == a[i + k]);
    }
    assert(seg_wf(rd)) by {
        assert forall|i: int| 0 <= i < rd.len() implies (#[trigger] rd[i]).len() > 0 && forall|
            j: int,
        |
            0 <= j < rd[i].len() ==> rd[i][j] != '/' by {
            if i < m {
                assert(rd[i] == seq!['.', '.']);
                assert(rd[i].len() == 2);
                assert(forall|j: int| 0 <= j < rd[i].len() ==> rd[i][j] != '/');
            } else {
                assert(rd[i] == a.skip(k)[i - m]);
            }
        }
    }
    let rel = join_segs(rd);
    // rd is non-empty: otherwise k == b.len() and a == a.take(k) == b
    assert(rd.len() > 0) by {
        if rd.len() == 0 {
            assert(m == 0);
            assert(a.len() == k);
            assert(a.take(k) =~= a);
            assert(b.take(k) =~= b);
        }
    }
    lemma_join_segs_shape(rd);
    let joined = join_spec(par, rel);
    assert(segments(joined) == b + rd) by {
        if b.len() == 0 {
            assert(par =~= seq!['/']);
            assert(par.last() == '/');
            assert(joined =~= seq!['/'] + rel);
            lemma_segments_slash(rel);
            lemma_segments_of_join(rd);
            assert(b + rd =~= rd);
        } else {
            lemma_join_segs_shape(b);
            assert(par.last() == join_segs(b).last());
            assert(par.last() != '/');
            assert(par.len() > 0);
            assert(joined =~= par + seq!['/'] + rel);
            lemma_join_segs_concat(b, rd);
            assert(joined =~= seq!['/'] + join_segs(b + rd));
            lemma_segments_slash(join_segs(b + rd));
            assert(seg_wf(b + rd));
            lemma_segments_of_join(b + rd);
        }
    }
    assert(b + rd =~= b + updots(m) + a.skip(k));
    lemma_resolve_nodots(Seq::empty(), b, updots(m) + a.skip(k));
    assert(Seq::empty() + b =~= b);
    lemma_resolve_updots(b, m, a.skip(k));
    assert(b.take(b.len() - m) =~= b.take(k));
    assert(no_dots(a.skip(k))) by {
        assert(forall|i: int| 0 <= i < a.skip(k).len() ==> a.skip(k)[i] == a[i + k]);
    }
    lemma_resolve_nodots(b.take(k), a.skip(k), Seq::empty());
    assert(a.skip(k) + Seq::<Seq<char>>::empty() =~= a.skip(k));
    assert(b.take(k) + a.skip(k) =~= a) by {
        assert(b.take(k) == a.take(k));
        assert(a.take(k) + a.skip(k) =~= a);
    }
    assert(b + (updots(m) + a.skip(k)) =~= b + updots(m) + a.skip(k));
}

/// The result of `normalize_path`, or `None` where it fails because the
/// path is not under the base directory.
pub open spec fn normalize_path_spec(
    path: Seq<char>,
    must_be_relative: bool,
    base: Seq<char>,
) -> Option<Seq<char>> {
    let is_rel = !spec_is_absolute(path);
    if must_be_relative && !is_rel {
        if within_root_spec(base, path) {
            Some(strip_prefix_spec(path, base))
        } else {
            None
        }
    } else if !must_be_relative && is_rel {
        Some(join_spec(base, path))
    } else if !is_rel {
        if within_root_spec(base, path) {
            Some(path)
        } else {
            None
        }
    } else {
        Some(path)
    }
}

/// Normalizes `path` to relative or absolute form against `base_dir`.
///
/// An absolute path asked to be relative is stripped of the `base_dir`
/// prefix; a relative path asked to be absolute is joined onto
/// `base_dir`; a path already in the requested form is returned as is,
/// except that an absolute path is still checked to lie under
/// `base_dir`. Fails exactly when the path is absolute but not under
/// `base_dir`.
pub fn normalize_path(path: &str, must_be_relative: bool, base_dir: &str) -> (r: Result<
    String,
    AppError,
>)
    ensures
        match r {
            Ok(p) => normalize_path_spec(path@, must_be_relative, base_dir@) == Some(p@),
            Err(e) => normalize_path_spec(path@, must_be_relative, base_dir@) is None && e matches
                AppError::Fs(_),
        },
{
    let is_rel = !is_absolute(path);
    if must_be_relative && !is_rel {
        if within_rootdir(base_dir, path) {
            let ps = segments_of(path);
            let bs = segments_of(base_dir);
            let bn = bs.len();
            proof {
                assert(bn <= ps.len());
            }
            Ok(join_from(&ps, bn))
        } else {
            Err(
                AppError::Fs(
                    String::from_str("Couldn't compute relative path for: ").concat(path),
                ),
            )
        }
    } else if !must_be_relative && is_rel {
        Ok(path_join(base_dir, path))
    } else if !is_rel {
        if within_rootdir(base_dir, path) {
            Ok(String::from_str(path))
        } else {
            Err(AppError::Fs(String::from_str("Path not under base_dir: ").concat(path)))
        }
    } else {
        Ok(String::from_str(path))
    }
}

} // verus!
