//! The duplicate scanner: given the entries found by traversing the
//! root, it filters out invalid paths, groups candidates by size, then
//! by fast fingerprint, and optionally confirms each group by strong
//! digest.

use vstd::prelude::*;
use vstd::string::*;
use crate::fileutil::within_root_spec;
use crate::fileutil::within_rootdir;
use crate::hash::{sha256, sha256_of, xxh3_64, xxh3_of};
use crate::strutil::{hex_rep, str_eq, lemma_hex_rep_injective};

verus! {

/// One filesystem entry handed to the scanner: its absolute path, its
/// link status, the resolved form of the path (when resolution
/// succeeds), its size, and its contents.
#[derive(Debug, Clone, PartialEq, Eq)]
pub struct ScanEntry {
    pub path: String,
    pub is_symlink: bool,
    pub link_target: Option<String>,
    pub canonical: Option<String>,
    pub size: u64,
    pub contents: Vec<u8>,
}

/// The view of a scan entry.
pub struct ScanEntryV {
    pub path: Seq<char>,
    pub is_symlink: bool,
    pub link_target: Option<Seq<char>>,
    pub canonical: Option<Seq<char>>,
    pub size: u64,
    pub contents: Seq<u8>,
}

impl View for ScanEntry {
    type V = ScanEntryV;

    open spec fn view(&self) -> ScanEntryV {
        ScanEntryV {
            path: self.path@,
            is_symlink: self.is_symlink,
            link_target: match &self.link_target {
                Some(s) => Some(s@),
                None => None,
            },
            canonical: match &self.canonical {
                Some(s) => Some(s@),
                None => None,
            },
            size: self.size,
            contents: self.contents@,
        }
    }
}

/// The views of a list of entries.
pub open spec fn entries_view(s: Seq<ScanEntry>) -> Seq<ScanEntryV> {
    s.map_values(|e: ScanEntry| e@)
}

/// A macOS `Icon\r` artifact: the path's last segment is that literal
/// name.
pub open spec fn is_icon_artifact(p: Seq<char>) -> bool {
    crate::fileutil::segments(p).len() > 0 && crate::fileutil::segments(p).last() == "Icon\r"@
}

/// A valid entry: a symlink must resolve to a path under the
/// canonicalized root; an `Icon\r` artifact is skipped; anything else
/// passes.
pub open spec fn path_valid_spec(rootcanon: Seq<char>, e: ScanEntryV) -> bool {
    if e.is_symlink {
        match e.canonical {
            Some(t) => within_root_spec(rootcanon, t),
            None => false,
        }
    } else {
        !is_icon_artifact(e.path)
    }
}

/// Checks whether an entry is valid for scanning.
pub fn is_path_valid(rootdir: &str, entry: &ScanEntry) -> (r: bool)
    ensures
        r == path_valid_spec(rootdir@, entry@),
{
    if entry.is_symlink {
        match &entry.canonical {
            Some(t) => within_rootdir(rootdir, t.as_str()),
            None => false,
        }
    } else {
        let segs = crate::fileutil::segments_of(entry.path.as_str());
        if segs.len() == 0 {
            proof {
                assert(!is_icon_artifact(entry.path@));
            }
            true
        } else {
            let r = !str_eq(segs[segs.len() - 1].as_str(), "Icon\r");
            proof {
                assert(crate::fileutil::seg_views(segs@).last() == segs@[segs@.len() - 1]@);
            }
            r
        }
    }
}

/// One group of duplicates: a fingerprint and the indices (into the
/// scanner's entry list) of its members.
#[derive(Debug, Clone, PartialEq, Eq)]
pub struct DupGroup {
    pub checksum: u64,
    pub members: Vec<usize>,
}

/// Pairwise distinct values.
pub open spec fn all_distinct(s: Seq<usize>) -> bool {
    forall|a: int, b: int| 0 <= a < b < s.len() ==> s[a] != s[b]
}

/// A sound duplicate group over an entry list: at least two members,
/// each a valid entry, all sharing the group's fast fingerprint, and —
/// unless the scan was quick — all sharing one strong digest.
pub open spec fn group_sound(
    checksum: u64,
    members: Seq<usize>,
    entries: Seq<ScanEntryV>,
    rootcanon: Seq<char>,
    quick: bool,
) -> bool {
    &&& members.len() >= 2
    &&& forall|k: int| 0 <= k < members.len() ==> (#[trigger] members[k]) < entries.len()
    &&& forall|k: int|
        0 <= k < members.len() ==> path_valid_spec(rootcanon, entries[#[trigger] members[k] as int])
    &&& forall|k: int|
        0 <= k < members.len() ==> xxh3_of(entries[#[trigger] members[k] as int].contents)
            == checksum
    &&& (!quick ==> forall|k: int, l: int|
        0 <= k < members.len() && 0 <= l < members.len() ==> sha256_of(
            entries[#[trigger] members[k] as int].contents,
        ) == sha256_of(entries[#[trigger] members[l] as int].contents))
}

/// A sound scan result: every group sound, checksums pairwise distinct.
pub open spec fn scan_sound(
    groups: Seq<DupGroup>,
    entries: Seq<ScanEntryV>,
    rootcanon: Seq<char>,
    quick: bool,
) -> bool {
    &&& forall|i: int|
        0 <= i < groups.len() ==> group_sound(
            (#[trigger] groups[i]).checksum,
            groups[i].members@,
            entries,
            rootcanon,
            quick,
        )
    &&& forall|i: int, j: int|
        0 <= i < j < groups.len() ==> (#[trigger] groups[i]).checksum != (
        #[trigger] groups[j]).checksum
}

/// A valid entry that has a duplicate-size partner: some other valid
/// entry of the same size. Only such entries survive the size phase.
pub open spec fn has_size_mate(entries: Seq<ScanEntryV>, rootcanon: Seq<char>, k: int) -> bool {
    &&& 0 <= k < entries.len()
    &&& path_valid_spec(rootcanon, entries[k])
    &&& exists|l: int|
        0 <= l < entries.len() && l != k && path_valid_spec(rootcanon, #[trigger] entries[l])
            && entries[l].size == entries[k].size
}

/// The fingerprint class of `h` — every size-mated valid entry whose
/// fast fingerprint is `h` — shares one strong digest.
pub open spec fn class_coherent(entries: Seq<ScanEntryV>, rootcanon: Seq<char>, h: u64) -> bool {
    forall|k: int, l: int|
        has_size_mate(entries, rootcanon, k) && has_size_mate(entries, rootcanon, l) && xxh3_of(
            (#[trigger] entries[k]).contents,
        ) == h && xxh3_of((#[trigger] entries[l]).contents) == h ==> sha256_of(entries[k].contents)
            == sha256_of(entries[l].contents)
}

/// A complete scan result: every pair of distinct valid entries of
/// equal size and equal fast fingerprint — whose whole fingerprint
/// class shares one strong digest, unless the scan was quick — lands
/// together in the group keyed by that fingerprint.
pub open spec fn scan_complete(
    groups: Seq<DupGroup>,
    entries: Seq<ScanEntryV>,
    rootcanon: Seq<char>,
    quick: bool,
) -> bool {
    forall|i: int, j: int|
        0 <= i < entries.len() && 0 <= j < entries.len() && i != j && path_valid_spec(
            rootcanon,
            #[trigger] entries[i],
        ) && path_valid_spec(rootcanon, #[trigger] entries[j]) && entries[i].size
            == entries[j].size && xxh3_of(entries[i].contents) == xxh3_of(entries[j].contents) && (
        !quick ==> class_coherent(entries, rootcanon, xxh3_of(entries[i].contents))) ==> exists|
            g: int,
        |
            #![trigger groups[g]]
            0 <= g < groups.len() && groups[g].checksum == xxh3_of(entries[i].contents)
                && groups[g].members@.contains(i as usize) && groups[g].members@.contains(
                j as usize,
            )
}

/// Bucket `b` of the size grouping holds the candidate `v`.
pub open spec fn bucket_has(buckets: Seq<(u64, Vec<usize>)>, b: int, v: usize) -> bool {
    buckets[b].1@.contains(v)
}

/// Some bucket holds the candidate `v`.
pub open spec fn in_some_bucket(buckets: Seq<(u64, Vec<usize>)>, v: usize) -> bool {
    exists|b: int| 0 <= b < buckets.len() && bucket_has(buckets, b, v)
}

/// Some bucket with at least two candidates holds `v`.
pub open spec fn in_big_bucket(buckets: Seq<(u64, Vec<usize>)>, upto: int, v: usize) -> bool {
    exists|b: int| 0 <= b < upto && buckets[b].1@.len() >= 2 && bucket_has(buckets, b, v)
}

/// Some group keyed by `v`'s fast fingerprint holds `v`.
pub open spec fn in_group_of(groups: Seq<DupGroup>, entries: Seq<ScanEntryV>, v: usize) -> bool {
    exists|g: int|
        0 <= g < groups.len() && (#[trigger] groups[g]).checksum == xxh3_of(
            entries[v as int].contents,
        ) && groups[g].members@.contains(v)
}

/// Groups candidate indices by file size: each candidate lands in
/// exactly one bucket, the bucket of its size; bucket keys are
/// pairwise distinct; buckets keep insertion order.
pub fn group_by_size(entries: &Vec<ScanEntry>, idxs: &Vec<usize>) -> (r: Vec<(u64, Vec<usize>)>)
    requires
        forall|k: int| 0 <= k < idxs@.len() ==> (#[trigger] idxs@[k]) < entries@.len(),
        all_distinct(idxs@),
    ensures
        forall|b: int, k: int|
            0 <= b < r@.len() && 0 <= k < r@[b].1@.len() ==> idxs@.contains(
                #[trigger] r@[b].1@[k],
            ),
        forall|b: int, k: int|
            0 <= b < r@.len() && 0 <= k < r@[b].1@.len() ==> entries@[#[trigger] r@[b].1@[k] as int].size
                == r@[b].0,
        forall|b1: int, b2: int|
            0 <= b1 < b2 < r@.len() ==> (#[trigger] r@[b1]).0 != (#[trigger] r@[b2]).0,
        forall|k: int| 0 <= k < idxs@.len() ==> in_some_bucket(r@, #[trigger] idxs@[k]),
        forall|b: int| 0 <= b < r@.len() ==> all_distinct((#[trigger] r@[b]).1@),
{
    let mut r: Vec<(u64, Vec<usize>)> = Vec::new();
    let n = idxs.len();
    let mut i: usize = 0;
    while i < n
        invariant
            0 <= i <= n,
            n == idxs@.len(),
            forall|k: int| 0 <= k < idxs@.len() ==> (#[trigger] idxs@[k]) < entries@.len(),
            all_distinct(idxs@),
            forall|b: int, k: int|
                0 <= b < r@.len() && 0 <= k < r@[b].1@.len() ==> idxs@.take(i as int).contains(
                    #[trigger] r@[b].1@[k],
                ),
            forall|b: int, k: int|
                0 <= b < r@.len() && 0 <= k < r@[b].1@.len() ==> entries@[#[trigger] r@[b].1@[k] as int].size
                    == r@[b].0,
            forall|b1: int, b2: int|
                0 <= b1 < b2 < r@.len() ==> (#[trigger] r@[b1]).0 != (#[trigger] r@[b2]).0,
            forall|k: int| 0 <= k < i ==> in_some_bucket(r@, #[trigger] idxs@[k]),
            forall|b: int| 0 <= b < r@.len() ==> all_distinct((#[trigger] r@[b]).1@),
        decreases n - i,
    {
        let idx = idxs[i];
        let size = entries[idx].size;
        let m = r.len();
        let mut b: usize = 0;
        let mut found: Option<usize> = None;
        while b < m && found.is_none()
            invariant
                0 <= b <= m,
                m == r@.len(),
                size == entries@[idxs@[i as int] as int].size,
                idx == idxs@[i as int],
                match found {
                    Some(fb) => 0 <= fb < m && r@[fb as int].0 == size,
                    None => forall|b2: int| 0 <= b2 < b ==> (#[trigger] r@[b2]).0 != size,
                },
            decreases m - b + (if found is None { 1int } else { 0int }),
        {
            if r[b].0 == size {
                found = Some(b);
            } else {
                b = b + 1;
            }
        }
        proof {
            // the new candidate is not yet in any bucket
            assert(!idxs@.take(i as int).contains(idx)) by {
                if idxs@.take(i as int).contains(idx) {
                    let k0 = choose|k0: int|
                        0 <= k0 < i && idxs@.take(i as int)[k0] == idx;
                    assert(idxs@[k0] == idxs@[i as int]);
                }
            }
        }
        match found {
            Some(fb) => {
                let ghost oldr = r@;
                let mut pair = r.remove(fb);
                pair.1.push(idx);
                let ghost pairv = pair;
                r.insert(fb, pair);
                proof {
                    assert(r@ =~= oldr.update(fb as int, pairv));
                    assert(pairv.1@ =~= oldr[fb as int].1@.push(idx));
                    assert forall|b2: int, k: int|
                        0 <= b2 < r@.len() && 0 <= k < r@[b2].1@.len() implies idxs@.take(
                        i + 1,
                    ).contains(#[trigger] r@[b2].1@[k]) && entries@[r@[b2].1@[k] as int].size
                        == r@[b2].0 by {
                        let v = r@[b2].1@[k];
                        if b2 == fb && k == oldr[fb as int].1@.len() {
                            assert(v == idx);
                            assert(idxs@.take(i + 1)[i as int] == idx);
                        } else {
                            assert(v == oldr[b2].1@[k]);
                            assert(idxs@.take(i as int).contains(v));
                            let k0 = choose|k0: int|
                                0 <= k0 < i && idxs@.take(i as int)[k0] == v;
                            assert(idxs@.take(i + 1)[k0] == v);
                        }
                    }
                    assert forall|k: int|
                        0 <= k < i + 1 implies in_some_bucket(r@, #[trigger] idxs@[k]) by {
                        if k == i {
                            assert(r@[fb as int].1@[oldr[fb as int].1@.len() as int] == idx);
                            assert(r@[fb as int].1@.contains(idxs@[k]));
                            assert(bucket_has(r@, fb as int, idxs@[k]));
                        } else {
                            assert(in_some_bucket(oldr, idxs@[k]));
                            let b2 = choose|b2: int|
                                0 <= b2 < oldr.len() && bucket_has(oldr, b2, idxs@[k]);
                            if b2 == fb {
                                let k0 = choose|k0: int|
                                    0 <= k0 < oldr[b2].1@.len() && oldr[b2].1@[k0] == idxs@[k];
                                assert(r@[b2].1@[k0] == idxs@[k]);
                                assert(r@[b2].1@.contains(idxs@[k]));
                            } else {
                                assert(r@[b2].1@.contains(idxs@[k]));
                            }
                            assert(bucket_has(r@, b2, idxs@[k]));
                        }
                    }
                    assert forall|b2: int|
                        0 <= b2 < r@.len() implies all_distinct((#[trigger] r@[b2]).1@) by {
                        if b2 == fb {
                            assert forall|a: int, c: int|
                                0 <= a < c < r@[b2].1@.len() implies r@[b2].1@[a] != r@[b2].1@[c]
                                by {
                                if c == oldr[fb as int].1@.len() {
                                    assert(r@[b2].1@[c] == idx);
                                    assert(r@[b2].1@[a] == oldr[b2].1@[a]);
                                    assert(idxs@.take(i as int).contains(oldr[b2].1@[a]));
                                } else {
                                    assert(r@[b2].1@[a] == oldr[b2].1@[a]);
                                    assert(r@[b2].1@[c] == oldr[b2].1@[c]);
                                    assert(all_distinct(oldr[b2].1@));
                                }
                            }
                        } else {
                            assert(r@[b2] == oldr[b2]);
                            assert(all_distinct(oldr[b2].1@));
                        }
                    }
                }
            },
            None => {
                let mut members: Vec<usize> = Vec::new();
                members.push(idx);
                let ghost oldr = r@;
                r.push((size, members));
                proof {
                    assert(r@[oldr.len() as int].1@ =~= seq![idx]);
                    assert forall|b2: int, k: int|
                        0 <= b2 < r@.len() && 0 <= k < r@[b2].1@.len() implies idxs@.take(
                        i + 1,
                    ).contains(#[trigger] r@[b2].1@[k]) && entries@[r@[b2].1@[k] as int].size
                        == r@[b2].0 by {
                        if b2 < oldr.len() {
                            assert(r@[b2] == oldr[b2]);
                            let v = r@[b2].1@[k];
                            assert(idxs@.take(i as int).contains(v));
                            let k0 = choose|k0: int|
                                0 <= k0 < i && idxs@.take(i as int)[k0] == v;
                            assert(idxs@.take(i + 1)[k0] == v);
                        } else {
                            assert(r@[b2].1@[k] == idx);
                            assert(idxs@.take(i + 1)[i as int] == idx);
                        }
                    }
                    assert forall|b1: int, b2: int|
                        0 <= b1 < b2 < r@.len() implies (#[trigger] r@[b1]).0 != (
                    #[trigger] r@[b2]).0 by {
                        if b2 == oldr.len() {
                            assert(r@[b1] == oldr[b1]);
                            assert(r@[b2].0 == size);
                        } else {
                            assert(r@[b1] == oldr[b1]);
                            assert(r@[b2] == oldr[b2]);
                        }
                    }
                    assert forall|k: int|
                        0 <= k < i + 1 implies in_some_bucket(r@, #[trigger] idxs@[k]) by {
                        if k == i {
                            assert(r@[oldr.len() as int].1@[0] == idx);
                            assert(r@[oldr.len() as int].1@.contains(idxs@[k]));
                            assert(bucket_has(r@, oldr.len() as int, idxs@[k]));
                        } else {
                            assert(in_some_bucket(oldr, idxs@[k]));
                            let b2 = choose|b2: int|
                                0 <= b2 < oldr.len() && bucket_has(oldr, b2, idxs@[k]);
                            assert(r@[b2] == oldr[b2]);
                            assert(r@[b2].1@.contains(idxs@[k]));
                            assert(bucket_has(r@, b2, idxs@[k]));
                        }
                    }
                    assert forall|b2: int|
                        0 <= b2 < r@.len() implies all_distinct((#[trigger] r@[b2]).1@) by {
                        if b2 < oldr.len() {
                            assert(r@[b2] == oldr[b2]);
                            assert(all_distinct(oldr[b2].1@));
                        }
                    }
                }
            },
        }
        i = i + 1;
    }
    proof {
        assert(idxs@.take(n as int) == idxs@);
        assert forall|b: int, k: int|
            0 <= b < r@.len() && 0 <= k < r@[b].1@.len() implies idxs@.contains(
            #[trigger] r@[b].1@[k],
        ) by {
            assert(idxs@.take(n as int).contains(r@[b].1@[k]));
        }
    }
    r
}

/// Flattens the size buckets that hold more than one candidate: the
/// result holds exactly the members of those buckets, each once.
pub fn possible_duplicates(buckets: &Vec<(u64, Vec<usize>)>) -> (r: Vec<usize>)
    requires
        forall|b: int| 0 <= b < buckets@.len() ==> all_distinct((#[trigger] buckets@[b]).1@),
        forall|b1: int, b2: int, k1: int, k2: int|
            0 <= b1 < buckets@.len() && 0 <= b2 < buckets@.len() && b1 != b2 && 0 <= k1 < buckets@[b1].1@.len()
                && 0 <= k2 < buckets@[b2].1@.len() ==> (#[trigger] buckets@[b1].1@[k1]) != (
            #[trigger] buckets@[b2].1@[k2]),
    ensures
        all_distinct(r@),
        forall|j: int|
            0 <= j < r@.len() ==> in_big_bucket(buckets@, buckets@.len() as int, #[trigger] r@[j]),
        forall|b: int, k: int|
            0 <= b < buckets@.len() && buckets@[b].1@.len() >= 2 && 0 <= k < buckets@[b].1@.len()
                ==> r@.contains(#[trigger] buckets@[b].1@[k]),
{
    let mut r: Vec<usize> = Vec::new();
    let n = buckets.len();
    let mut b: usize = 0;
    while b < n
        invariant
            0 <= b <= n,
            n == buckets@.len(),
            forall|b2: int| 0 <= b2 < buckets@.len() ==> all_distinct((#[trigger] buckets@[b2]).1@),
            forall|b1: int, b2: int, k1: int, k2: int|
                0 <= b1 < buckets@.len() && 0 <= b2 < buckets@.len() && b1 != b2 && 0 <= k1
                    < buckets@[b1].1@.len() && 0 <= k2 < buckets@[b2].1@.len() ==> (
                #[trigger] buckets@[b1].1@[k1]) != (#[trigger] buckets@[b2].1@[k2]),
            all_distinct(r@),
            forall|j: int| 0 <= j < r@.len() ==> in_big_bucket(buckets@, b as int, #[trigger] r@[j]),
            forall|b2: int, k: int|
                0 <= b2 < b && buckets@[b2].1@.len() >= 2 && 0 <= k < buckets@[b2].1@.len()
                    ==> r@.contains(#[trigger] buckets@[b2].1@[k]),
        decreases n - b,
    {
        if buckets[b].1.len() > 1 {
            let m = buckets[b].1.len();
            let ghost rbase = r@;
            let mut k: usize = 0;
            while k < m
                invariant
                    0 <= k <= m,
                    0 <= b < n,
                    n == buckets@.len(),
                    m == buckets@[b as int].1@.len(),
                    m >= 2,
                    r@ == rbase + buckets@[b as int].1@.take(k as int),
                    forall|b2: int|
                        0 <= b2 < buckets@.len() ==> all_distinct((#[trigger] buckets@[b2]).1@),
                    forall|b1: int, b2: int, k1: int, k2: int|
                        0 <= b1 < buckets@.len() && 0 <= b2 < buckets@.len() && b1 != b2 && 0 <= k1
                            < buckets@[b1].1@.len() && 0 <= k2 < buckets@[b2].1@.len() ==> (
                        #[trigger] buckets@[b1].1@[k1]) != (#[trigger] buckets@[b2].1@[k2]),
                    forall|j: int|
                        0 <= j < rbase.len() ==> in_big_bucket(
                            buckets@,
                            b as int,
                            #[trigger] rbase[j],
                        ),
                decreases m - k,
            {
                r.push(buckets[b].1[k]);
                proof {
                    assert(r@ =~= rbase + buckets@[b as int].1@.take(k + 1));
                }
                k = k + 1;
            }
            proof {
                assert(buckets@[b as int].1@.take(m as int) == buckets@[b as int].1@);
                // distinctness of the grown list
                assert forall|a: int, c: int| 0 <= a < c < r@.len() implies r@[a] != r@[c] by {
                    if c < rbase.len() {
                        assert(all_distinct(rbase));
                    } else if a >= rbase.len() {
                        assert(r@[a] == buckets@[b as int].1@[a - rbase.len()]);
                        assert(r@[c] == buckets@[b as int].1@[c - rbase.len()]);
                        assert(all_distinct(buckets@[b as int].1@));
                    } else {
                        assert(r@[a] == rbase[a]);
                        assert(r@[c] == buckets@[b as int].1@[c - rbase.len()]);
                        assert(in_big_bucket(buckets@, b as int, rbase[a]));
                        let b2 = choose|b2: int|
                            0 <= b2 < b && buckets@[b2].1@.len() >= 2 && bucket_has(
                                buckets@,
                                b2,
                                rbase[a],
                            );
                        let k1 = choose|k1: int|
                            0 <= k1 < buckets@[b2].1@.len() && buckets@[b2].1@[k1] == rbase[a];
                        assert(buckets@[b2].1@[k1] != buckets@[b as int].1@[c - rbase.len()]);
                    }
                }
                // soundness and completeness carried to the next bucket
                assert forall|j: int|
                    0 <= j < r@.len() implies in_big_bucket(
                    buckets@,
                    b + 1,
                    #[trigger] r@[j],
                ) by {
                    if j < rbase.len() {
                        assert(in_big_bucket(buckets@, b as int, rbase[j]));
                        let b2 = choose|b2: int|
                            0 <= b2 < b && buckets@[b2].1@.len() >= 2 && bucket_has(
                                buckets@,
                                b2,
                                rbase[j],
                            );
                        assert(bucket_has(buckets@, b2, r@[j]));
                    } else {
                        assert(r@[j] == buckets@[b as int].1@[j - rbase.len()]);
                        assert(buckets@[b as int].1@.contains(r@[j]));
                        assert(bucket_has(buckets@, b as int, r@[j]));
                    }
                }
                assert forall|b2: int, k2: int|
                    0 <= b2 < b + 1 && buckets@[b2].1@.len() >= 2 && 0 <= k2
                        < buckets@[b2].1@.len() implies r@.contains(
                    #[trigger] buckets@[b2].1@[k2],
                ) by {
                    if b2 < b {
                        assert(rbase.contains(buckets@[b2].1@[k2]));
                        let j = choose|j: int|
                            0 <= j < rbase.len() && rbase[j] == buckets@[b2].1@[k2];
                        assert(r@[j] == buckets@[b2].1@[k2]);
                    } else {
                        assert(r@[rbase.len() + k2] == buckets@[b2].1@[k2]);
                    }
                }
            }
        } else {
            proof {
                assert forall|j: int|
                    0 <= j < r@.len() implies in_big_bucket(
                    buckets@,
                    b + 1,
                    #[trigger] r@[j],
                ) by {
                    assert(in_big_bucket(buckets@, b as int, r@[j]));
                    let b2 = choose|b2: int|
                        0 <= b2 < b && buckets@[b2].1@.len() >= 2 && bucket_has(
                            buckets@,
                            b2,
                            r@[j],
                        );
                    assert(bucket_has(buckets@, b2, r@[j]));
                }
            }
        }
        b = b + 1;
    }
    r
}

/// Groups candidates by fast fingerprint and keeps the groups with at
/// least two members: every candidate with an equal-fingerprint partner
/// lands in the group keyed by its fingerprint.
pub fn group_dups_by_xxh3(entries: &Vec<ScanEntry>, cands: &Vec<usize>) -> (r: Vec<DupGroup>)
    requires
        forall|k: int| 0 <= k < cands@.len() ==> (#[trigger] cands@[k]) < entries@.len(),
        all_distinct(cands@),
    ensures
        forall|i: int, k: int|
            0 <= i < r@.len() && 0 <= k < r@[i].members@.len() ==> cands@.contains(
                #[trigger] r@[i].members@[k],
            ),
        forall|i: int| 0 <= i < r@.len() ==> (#[trigger] r@[i]).members@.len() >= 2,
        forall|i: int, k: int|
            0 <= i < r@.len() && 0 <= k < r@[i].members@.len() ==> (#[trigger] r@[i].members@[k])
                < entries@.len() && xxh3_of(
                entries_view(entries@)[r@[i].members@[k] as int].contents,
            ) == r@[i].checksum,
        forall|i: int, j: int|
            0 <= i < j < r@.len() ==> (#[trigger] r@[i]).checksum != (#[trigger] r@[j]).checksum,
        forall|i: int| 0 <= i < r@.len() ==> all_distinct((#[trigger] r@[i]).members@),
        forall|k: int|
            0 <= k < cands@.len() && (exists|l: int|
                0 <= l < cands@.len() && l != k && xxh3_of(
                    entries_view(entries@)[#[trigger] cands@[l] as int].contents,
                ) == xxh3_of(entries_view(entries@)[cands@[k] as int].contents)) ==> in_group_of(
                r@,
                entries_view(entries@),
                #[trigger] cands@[k],
            ),
{
    let ghost ev = entries_view(entries@);
    let mut acc: Vec<DupGroup> = Vec::new();
    let n = cands.len();
    let mut i: usize = 0;
    while i < n
        invariant
            0 <= i <= n,
            n == cands@.len(),
            ev == entries_view(entries@),
            forall|k: int| 0 <= k < cands@.len() ==> (#[trigger] cands@[k]) < entries@.len(),
            all_distinct(cands@),
            forall|g: int, k: int|
                0 <= g < acc@.len() && 0 <= k < acc@[g].members@.len() ==> cands@.take(
                    i as int,
                ).contains(#[trigger] acc@[g].members@[k]),
            forall|g: int| 0 <= g < acc@.len() ==> (#[trigger] acc@[g]).members@.len() >= 1,
            forall|g: int, k: int|
                0 <= g < acc@.len() && 0 <= k < acc@[g].members@.len() ==> (
                #[trigger] acc@[g].members@[k]) < entries@.len() && xxh3_of(
                    ev[acc@[g].members@[k] as int].contents,
                ) == acc@[g].checksum,
            forall|g: int, h: int|
                0 <= g < h < acc@.len() ==> (#[trigger] acc@[g]).checksum != (
                #[trigger] acc@[h]).checksum,
            forall|g: int| 0 <= g < acc@.len() ==> all_distinct((#[trigger] acc@[g]).members@),
            forall|k: int| 0 <= k < i ==> in_group_of(acc@, ev, #[trigger] cands@[k]),
        decreases n - i,
    {
        let idx = cands[i];
        let hash = xxh3_64(entries[idx].contents.as_slice());
        proof {
            assert(ev[idx as int].contents == entries@[idx as int].contents@);
            assert(!cands@.take(i as int).contains(idx)) by {
                if cands@.take(i as int).contains(idx) {
                    let k0 = choose|k0: int| 0 <= k0 < i && cands@.take(i as int)[k0] == idx;
                    assert(cands@[k0] == cands@[i as int]);
                }
            }
        }
        let m = acc.len();
        let mut g: usize = 0;
        let mut found: Option<usize> = None;
        while g < m && found.is_none()
            invariant
                0 <= g <= m,
                m == acc@.len(),
                match found {
                    Some(fg) => 0 <= fg < m && acc@[fg as int].checksum == hash,
                    None => forall|g2: int| 0 <= g2 < g ==> (#[trigger] acc@[g2]).checksum != hash,
                },
            decreases m - g + (if found is None { 1int } else { 0int }),
        {
            if acc[g].checksum == hash {
                found = Some(g);
            } else {
                g = g + 1;
            }
        }
        match found {
            Some(fg) => {
                let ghost oldacc = acc@;
                let mut grp = acc.remove(fg);
                grp.members.push(idx);
                let ghost grpv = grp;
                acc.insert(fg, grp);
                proof {
                    assert(acc@ =~= oldacc.update(fg as int, grpv));
                    assert(grpv.members@ =~= oldacc[fg as int].members@.push(idx));
                    assert(grpv.checksum == hash);
                    assert forall|g2: int, k: int|
                        0 <= g2 < acc@.len() && 0 <= k < acc@[g2].members@.len() implies
                        cands@.take(i + 1).contains(#[trigger] acc@[g2].members@[k]) && (
                    acc@[g2].members@[k]) < entries@.len() && xxh3_of(
                        ev[acc@[g2].members@[k] as int].contents,
                    ) == acc@[g2].checksum by {
                        let v = acc@[g2].members@[k];
                        if g2 == fg && k == oldacc[fg as int].members@.len() {
                            assert(v == idx);
                            assert(cands@.take(i + 1)[i as int] == idx);
                        } else {
                            assert(v == oldacc[g2].members@[k]);
                            assert(cands@.take(i as int).contains(v));
                            let k0 = choose|k0: int|
                                0 <= k0 < i && cands@.take(i as int)[k0] == v;
                            assert(cands@.take(i + 1)[k0] == v);
                        }
                    }
                    assert forall|g2: int, h: int|
                        0 <= g2 < h < acc@.len() implies (#[trigger] acc@[g2]).checksum != (
                    #[trigger] acc@[h]).checksum by {
                        if g2 == fg {
                            assert(acc@[g2] == grpv);
                            assert(acc@[h] == oldacc[h]);
                            assert(oldacc[g2].checksum != oldacc[h].checksum);
                        } else if h == fg {
                            assert(acc@[h] == grpv);
                            assert(acc@[g2] == oldacc[g2]);
                            assert(oldacc[g2].checksum != oldacc[h].checksum);
                        } else {
                            assert(acc@[g2] == oldacc[g2]);
                            assert(acc@[h] == oldacc[h]);
                        }
                    }
                    assert forall|g2: int|
                        0 <= g2 < acc@.len() implies all_distinct(
                        (#[trigger] acc@[g2]).members@,
                    ) by {
                        if g2 == fg {
                            assert forall|a: int, c: int|
                                0 <= a < c < acc@[g2].members@.len() implies acc@[g2].members@[a]
                                    != acc@[g2].members@[c] by {
                                if c == oldacc[fg as int].members@.len() {
                                    assert(acc@[g2].members@[c] == idx);
                                    assert(acc@[g2].members@[a] == oldacc[g2].members@[a]);
                                    assert(cands@.take(i as int).contains(oldacc[g2].members@[a]));
                                } else {
                                    assert(acc@[g2].members@[a] == oldacc[g2].members@[a]);
                                    assert(acc@[g2].members@[c] == oldacc[g2].members@[c]);
                                    assert(all_distinct(oldacc[g2].members@));
                                }
                            }
                        } else {
                            assert(acc@[g2] == oldacc[g2]);
                            assert(all_distinct(oldacc[g2].members@));
                        }
                    }
                    assert forall|k: int|
                        0 <= k < i + 1 implies in_group_of(acc@, ev, #[trigger] cands@[k]) by {
                        if k == i {
                            assert(acc@[fg as int].members@[oldacc[fg as int].members@.len() as int]
                                == idx);
                            assert(acc@[fg as int].members@.contains(cands@[k]));
                        } else {
                            assert(in_group_of(oldacc, ev, cands@[k]));
                            let g2 = choose|g2: int|
                                0 <= g2 < oldacc.len() && (#[trigger] oldacc[g2]).checksum
                                    == xxh3_of(ev[cands@[k] as int].contents)
                                    && oldacc[g2].members@.contains(cands@[k]);
                            if g2 == fg {
                                let k0 = choose|k0: int|
                                    0 <= k0 < oldacc[g2].members@.len() && oldacc[g2].members@[k0]
                                        == cands@[k];
                                assert(acc@[g2].members@[k0] == cands@[k]);
                                assert(acc@[g2].members@.contains(cands@[k]));
                            } else {
                                assert(acc@[g2] == oldacc[g2]);
                                assert(acc@[g2].members@.contains(cands@[k]));
                            }
                        }
                    }
                }
            },
            None => {
                let mut members: Vec<usize> = Vec::new();
                members.push(idx);
                let ghost oldacc = acc@;
                acc.push(DupGroup { checksum: hash, members });
                proof {
                    assert(acc@[oldacc.len() as int].members@ =~= seq![idx]);
                    assert forall|g2: int, k: int|
                        0 <= g2 < acc@.len() && 0 <= k < acc@[g2].members@.len() implies
                        cands@.take(i + 1).contains(#[trigger] acc@[g2].members@[k]) && (
                    acc@[g2].members@[k]) < entries@.len() && xxh3_of(
                        ev[acc@[g2].members@[k] as int].contents,
                    ) == acc@[g2].checksum by {
                        if g2 < oldacc.len() {
                            assert(acc@[g2] == oldacc[g2]);
                            let v = acc@[g2].members@[k];
                            assert(cands@.take(i as int).contains(v));
                            let k0 = choose|k0: int|
                                0 <= k0 < i && cands@.take(i as int)[k0] == v;
                            assert(cands@.take(i + 1)[k0] == v);
                        } else {
                            assert(acc@[g2].members@[k] == idx);
                            assert(cands@.take(i + 1)[i as int] == idx);
                        }
                    }
                    assert forall|g2: int, h: int|
                        0 <= g2 < h < acc@.len() implies (#[trigger] acc@[g2]).checksum != (
                    #[trigger] acc@[h]).checksum by {
                        if h == oldacc.len() {
                            assert(acc@[g2] == oldacc[g2]);
                            assert(acc@[h].checksum == hash);
                        } else {
                            assert(acc@[g2] == oldacc[g2]);
                            assert(acc@[h] == oldacc[h]);
                        }
                    }
                    assert forall|g2: int|
                        0 <= g2 < acc@.len() implies all_distinct(
                        (#[trigger] acc@[g2]).members@,
                    ) by {
                        if g2 < oldacc.len() {
                            assert(acc@[g2] == oldacc[g2]);
                            assert(all_distinct(oldacc[g2].members@));
                        }
                    }
                    assert forall|k: int|
                        0 <= k < i + 1 implies in_group_of(acc@, ev, #[trigger] cands@[k]) by {
                        if k == i {
                            assert(acc@[oldacc.len() as int].members@[0] == idx);
                            assert(acc@[oldacc.len() as int].members@.contains(cands@[k]));
                        } else {
                            assert(in_group_of(oldacc, ev, cands@[k]));
                            let g2 = choose|g2: int|
                                0 <= g2 < oldacc.len() && (#[trigger] oldacc[g2]).checksum
                                    == xxh3_of(ev[cands@[k] as int].contents)
                                    && oldacc[g2].members@.contains(cands@[k]);
                            assert(acc@[g2] == oldacc[g2]);
                            assert(acc@[g2].members@.contains(cands@[k]));
                        }
                    }
                }
            },
        }
        i = i + 1;
    }
    proof {
        assert(cands@.take(n as int) == cands@);
    }
    // keep only real duplicate groups
    let mut r: Vec<DupGroup> = Vec::new();
    let m = acc.len();
    let mut g: usize = 0;
    while g < m
        invariant
            0 <= g <= m,
            m == acc@.len(),
            ev == entries_view(entries@),
            forall|g2: int, k: int|
                0 <= g2 < acc@.len() && 0 <= k < acc@[g2].members@.len() ==> cands@.contains(
                    #[trigger] acc@[g2].members@[k],
                ),
            forall|g2: int, k: int|
                0 <= g2 < acc@.len() && 0 <= k < acc@[g2].members@.len() ==> (
                #[trigger] acc@[g2].members@[k]) < entries@.len() && xxh3_of(
                    ev[acc@[g2].members@[k] as int].contents,
                ) == acc@[g2].checksum,
            forall|g2: int, h: int|
                0 <= g2 < h < acc@.len() ==> (#[trigger] acc@[g2]).checksum != (
                #[trigger] acc@[h]).checksum,
            forall|g2: int| 0 <= g2 < acc@.len() ==> all_distinct((#[trigger] acc@[g2]).members@),
            forall|i2: int, k: int|
                0 <= i2 < r@.len() && 0 <= k < r@[i2].members@.len() ==> cands@.contains(
                    #[trigger] r@[i2].members@[k],
                ),
            forall|i2: int| 0 <= i2 < r@.len() ==> (#[trigger] r@[i2]).members@.len() >= 2,
            forall|i2: int, k: int|
                0 <= i2 < r@.len() && 0 <= k < r@[i2].members@.len() ==> (
                #[trigger] r@[i2].members@[k]) < entries@.len() && xxh3_of(
                    ev[r@[i2].members@[k] as int].contents,
                ) == r@[i2].checksum,
            forall|i2: int, j2: int|
                0 <= i2 < j2 < r@.len() ==> (#[trigger] r@[i2]).checksum != (
                #[trigger] r@[j2]).checksum,
            forall|i2: int| 0 <= i2 < r@.len() ==> all_distinct((#[trigger] r@[i2]).members@),
            forall|i2: int|
                0 <= i2 < r@.len() ==> exists|g2: int|
                    0 <= g2 < g && (#[trigger] r@[i2]).checksum == acc@[g2].checksum,
            forall|g2: int|
                0 <= g2 < g && (#[trigger] acc@[g2]).members@.len() >= 2 ==> exists|i2: int|
                    #![trigger r@[i2]]
                    0 <= i2 < r@.len() && r@[i2].checksum == acc@[g2].checksum && r@[i2].members@
                        == acc@[g2].members@,
        decreases m - g,
    {
        if acc[g].members.len() > 1 {
            let grp = DupGroup { checksum: acc[g].checksum, members: copy_usizes(&acc[g].members) };
            let ghost oldr = r@;
            r.push(grp);
            proof {
                assert(r@[oldr.len() as int].members@ =~= acc@[g as int].members@);
                assert forall|i2: int, j2: int|
                    0 <= i2 < j2 < r@.len() implies (#[trigger] r@[i2]).checksum != (
                #[trigger] r@[j2]).checksum by {
                    if j2 < oldr.len() {
                        assert(r@[i2] == oldr[i2]);
                        assert(r@[j2] == oldr[j2]);
                    } else {
                        assert(r@[i2] == oldr[i2]);
                        let g2 = choose|g2: int|
                            0 <= g2 < g && (#[trigger] oldr[i2]).checksum == acc@[g2].checksum;
                        assert(acc@[g2].checksum != acc@[g as int].checksum);
                    }
                }
                assert forall|g2: int|
                    0 <= g2 < g + 1 && (#[trigger] acc@[g2]).members@.len() >= 2 implies exists|
                    i2: int,
                |
                    #![trigger r@[i2]]
                    0 <= i2 < r@.len() && r@[i2].checksum == acc@[g2].checksum && r@[i2].members@
                        == acc@[g2].members@ by {
                    if g2 == g {
                        assert(r@[oldr.len() as int].checksum == acc@[g2].checksum);
                        assert(r@[oldr.len() as int].members@ == acc@[g2].members@);
                    } else {
                        let i2 = choose|i2: int|
                            #![trigger oldr[i2]]
                            0 <= i2 < oldr.len() && oldr[i2].checksum == acc@[g2].checksum
                                && oldr[i2].members@ == acc@[g2].members@;
                        assert(r@[i2].checksum == acc@[g2].checksum);
                        assert(r@[i2].members@ == acc@[g2].members@);
                    }
                }
            }
        }
        g = g + 1;
    }
    proof {
        // a candidate with an equal-fingerprint partner survives the cut
        assert forall|k: int|
            0 <= k < cands@.len() && (exists|l: int|
                0 <= l < cands@.len() && l != k && xxh3_of(
                    entries_view(entries@)[#[trigger] cands@[l] as int].contents,
                ) == xxh3_of(entries_view(entries@)[cands@[k] as int].contents)) implies
            in_group_of(r@, ev, #[trigger] cands@[k]) by {
            let h = xxh3_of(ev[cands@[k] as int].contents);
            let l = choose|l: int|
                0 <= l < cands@.len() && l != k && xxh3_of(
                    entries_view(entries@)[#[trigger] cands@[l] as int].contents,
                ) == h;
            assert(in_group_of(acc@, ev, cands@[k]));
            assert(in_group_of(acc@, ev, cands@[l]));
            let gk = choose|gk: int|
                0 <= gk < acc@.len() && (#[trigger] acc@[gk]).checksum == xxh3_of(
                    ev[cands@[k] as int].contents,
                ) && acc@[gk].members@.contains(cands@[k]);
            let gl = choose|gl: int|
                0 <= gl < acc@.len() && (#[trigger] acc@[gl]).checksum == xxh3_of(
                    ev[cands@[l] as int].contents,
                ) && acc@[gl].members@.contains(cands@[l]);
            assert(acc@[gk].checksum == acc@[gl].checksum);
            assert(gk == gl) by {
                if gk < gl {
                    assert(acc@[gk].checksum != acc@[gl].checksum);
                } else if gl < gk {
                    assert(acc@[gl].checksum != acc@[gk].checksum);
                }
            }
            // two distinct member values force at least two slots
            assert(cands@[k] != cands@[l]);
            let pk = choose|pk: int|
                0 <= pk < acc@[gk].members@.len() && acc@[gk].members@[pk] == cands@[k];
            let pl = choose|pl: int|
                0 <= pl < acc@[gk].members@.len() && acc@[gk].members@[pl] == cands@[l];
            assert(pk != pl);
            assert(acc@[gk].members@.len() >= 2);
            let i2 = choose|i2: int|
                #![trigger r@[i2]]
                0 <= i2 < r@.len() && r@[i2].checksum == acc@[gk].checksum && r@[i2].members@
                    == acc@[gk].members@;
            assert(r@[i2].members@.contains(cands@[k]));
            assert(in_group_of(r@, ev, cands@[k]));
        }
    }
    r
}

fn copy_usizes(v: &Vec<usize>) -> (r: Vec<usize>)
    ensures
        r@ == v@,
{
    let mut r: Vec<usize> = Vec::new();
    let n = v.len();
    let mut i: usize = 0;
    while i < n
        invariant
            0 <= i <= n,
            n == v@.len(),
            r@ =~= v@.take(i as int),
        decreases n - i,
    {
        r.push(v[i]);
        proof {
            assert(r@ =~= v@.take(i + 1));
        }
        i = i + 1;
    }
    proof {
        assert(v@.take(n as int) == v@);
    }
    r
}

/// A group all of whose members share one strong digest.
pub open spec fn digests_agree(g: DupGroup, entries: Seq<ScanEntryV>) -> bool {
    forall|k: int, l: int|
        0 <= k < g.members@.len() && 0 <= l < g.members@.len() ==> sha256_of(
            entries[#[trigger] g.members@[k] as int].contents,
        ) == sha256_of(entries[#[trigger] g.members@[l] as int].contents)
}

proof fn lemma_dup_filter_push(s: Seq<DupGroup>, g: DupGroup, entries: Seq<ScanEntryV>)
    ensures
        s.push(g).filter(|x: DupGroup| digests_agree(x, entries)) == if digests_agree(
            g,
            entries,
        ) {
            s.filter(|x: DupGroup| digests_agree(x, entries)).push(g)
        } else {
            s.filter(|x: DupGroup| digests_agree(x, entries))
        },
{
    reveal(Seq::filter);
    assert(s.push(g).drop_last() =~= s);
    assert(s.push(g).last() == g);
}

proof fn lemma_dup_filter_keeps(s: Seq<DupGroup>, idx: int, entries: Seq<ScanEntryV>)
    requires
        0 <= idx < s.len(),
        digests_agree(s[idx], entries),
    ensures
        s.filter(|x: DupGroup| digests_agree(x, entries)).contains(s[idx]),
    decreases s.len(),
{
    reveal(Seq::filter);
    if idx == s.len() - 1 {
        assert(s.drop_last().push(s[idx]) =~= s);
        lemma_dup_filter_push(s.drop_last(), s[idx], entries);
        let f = s.drop_last().filter(|x: DupGroup| digests_agree(x, entries));
        assert(s.filter(|x: DupGroup| digests_agree(x, entries)) == f.push(s[idx]));
        assert(f.push(s[idx])[f.len() as int] == s[idx]);
    } else {
        lemma_dup_filter_keeps(s.drop_last(), idx, entries);
        assert(s.drop_last()[idx] == s[idx]);
        let f = s.drop_last().filter(|x: DupGroup| digests_agree(x, entries));
        let j = choose|j: int| 0 <= j < f.len() && f[j] == s[idx];
        assert(s.drop_last().push(s.last()) =~= s);
        lemma_dup_filter_push(s.drop_last(), s.last(), entries);
        if digests_agree(s.last(), entries) {
            assert(s.filter(|x: DupGroup| digests_agree(x, entries))[j] == s[idx]);
        } else {
            assert(s.filter(|x: DupGroup| digests_agree(x, entries))[j] == s[idx]);
        }
    }
}

/// Confirms each group by strong digest: the result holds exactly the
/// input groups whose members all share one digest, in order and
/// unchanged; the rest are dropped as fingerprint collisions.
pub fn confirm_dups(rootdir: &str, entries: &Vec<ScanEntry>, dups: Vec<DupGroup>) -> (r: Vec<
    DupGroup,
>)
    requires
        forall|i: int, k: int|
            0 <= i < dups@.len() && 0 <= k < dups@[i].members@.len() ==> (
            #[trigger] dups@[i].members@[k]) < entries@.len(),
    ensures
        r@ == dups@.filter(|x: DupGroup| digests_agree(x, entries_view(entries@))),
        scan_sound(dups@, entries_view(entries@), rootdir@, true) ==> scan_sound(
            r@,
            entries_view(entries@),
            rootdir@,
            false,
        ),
{
    let ghost ev = entries_view(entries@);
    let ghost dupsv = dups@;
    let mut dups = dups;
    let mut r: Vec<DupGroup> = Vec::new();
    let ghost mut kept: Seq<int> = Seq::empty();
    proof {
        assert(dupsv.take(0).filter(|x: DupGroup| digests_agree(x, ev))
            =~= Seq::<DupGroup>::empty());
    }
    while dups.len() > 0
        invariant
            ev == entries_view(entries@),
            dups@ == dupsv.skip(dupsv.len() - dups@.len()),
            dups@.len() <= dupsv.len(),
            forall|i: int, k: int|
                0 <= i < dupsv.len() && 0 <= k < dupsv[i].members@.len() ==> (
                #[trigger] dupsv[i].members@[k]) < entries@.len(),
            r@ == dupsv.take(dupsv.len() - dups@.len()).filter(
                |x: DupGroup| digests_agree(x, ev),
            ),
            kept.len() == r@.len(),
            forall|k: int| 0 <= k < kept.len() ==> 0 <= #[trigger] kept[k] < dupsv.len()
                - dups@.len(),
            forall|k: int| 0 <= k < kept.len() ==> #[trigger] r@[k] == dupsv[kept[k]],
            forall|k: int, l: int| 0 <= k < l < kept.len() ==> #[trigger] kept[k] < #[trigger] kept[l],
        decreases dups@.len(),
    {
        let ghost i = dupsv.len() - dups@.len();
        let g = dups.remove(0);
        proof {
            assert(g == dupsv[i]);
            assert(dups@ =~= dupsv.skip(i + 1));
        }
        let m = g.members.len();
        let mut all_same = true;
        if m > 0 {
            let first_idx = g.members[0];
            let first = sha256(entries[first_idx].contents.as_slice());
            proof {
                assert(ev[first_idx as int].contents == entries@[first_idx as int].contents@);
            }
            let mut k: usize = 1;
            while k < m && all_same
                invariant
                    1 <= k <= m,
                    g == dupsv[i],
                    0 <= i < dupsv.len(),
                    ev == entries_view(entries@),
                    m == g.members@.len(),
                    first_idx == g.members@[0],
                    first_idx < entries@.len(),
                    forall|i2: int, k2: int|
                        0 <= i2 < dupsv.len() && 0 <= k2 < dupsv[i2].members@.len() ==> (
                        #[trigger] dupsv[i2].members@[k2]) < entries@.len(),
                    first@ == hex_rep(sha256_of(ev[first_idx as int].contents)),
                    all_same ==> forall|k2: int|
                        0 <= k2 < k ==> sha256_of(
                            ev[#[trigger] g.members@[k2] as int].contents,
                        ) == sha256_of(ev[first_idx as int].contents),
                    !all_same ==> !digests_agree(g, ev),
                decreases m - k + (if all_same { 1int } else { 0int }),
            {
                let this_idx = g.members[k];
                let this = sha256(entries[this_idx].contents.as_slice());
                proof {
                    assert(ev[this_idx as int].contents == entries@[this_idx as int].contents@);
                }
                if this == first {
                    proof {
                        lemma_hex_rep_injective(
                            sha256_of(ev[this_idx as int].contents),
                            sha256_of(ev[first_idx as int].contents),
                        );
                    }
                    k = k + 1;
                } else {
                    proof {
                        assert(sha256_of(ev[g.members@[k as int] as int].contents) != sha256_of(
                            ev[g.members@[0] as int].contents,
                        )) by {
                            if sha256_of(ev[g.members@[k as int] as int].contents) == sha256_of(
                                ev[g.members@[0] as int].contents,
                            ) {
                                lemma_hex_rep_injective(
                                    sha256_of(ev[this_idx as int].contents),
                                    sha256_of(ev[first_idx as int].contents),
                                );
                                assert(hex_rep(sha256_of(ev[this_idx as int].contents)) == hex_rep(
                                    sha256_of(ev[first_idx as int].contents),
                                ));
                                assert(this@ == first@);
                            }
                        }
                    }
                    all_same = false;
                }
            }
        }
        proof {
            if all_same {
                assert(digests_agree(g, ev)) by {
                    if m > 0 {
                        assert forall|k2: int, l2: int|
                            0 <= k2 < g.members@.len() && 0 <= l2 < g.members@.len() implies
                            sha256_of(ev[#[trigger] g.members@[k2] as int].contents) == sha256_of(
                            ev[#[trigger] g.members@[l2] as int].contents,
                        ) by {
                            if k2 > 0 {
                                assert(sha256_of(ev[g.members@[k2] as int].contents) == sha256_of(
                                    ev[g.members@[0] as int].contents,
                                ));
                            }
                            if l2 > 0 {
                                assert(sha256_of(ev[g.members@[l2] as int].contents) == sha256_of(
                                    ev[g.members@[0] as int].contents,
                                ));
                            }
                        }
                    }
                }
            }
            assert(dupsv.take(i + 1) =~= dupsv.take(i).push(dupsv[i]));
            lemma_dup_filter_push(dupsv.take(i), dupsv[i], ev);
        }
        if all_same {
            let ghost oldr = r@;
            r.push(g);
            proof {
                kept = kept.push(i);
                assert(r@ =~= dupsv.take(i).filter(|x: DupGroup| digests_agree(x, ev)).push(
                    dupsv[i],
                ));
            }
        }
    }
    proof {
        assert(dupsv.take(dupsv.len() as int) == dupsv);
        // soundness carries over: every kept group is an input group
        if scan_sound(dupsv, ev, rootdir@, true) {
            assert forall|i2: int|
                0 <= i2 < r@.len() implies group_sound(
                (#[trigger] r@[i2]).checksum,
                r@[i2].members@,
                ev,
                rootdir@,
                false,
            ) by {
                let src = kept[i2];
                assert(r@[i2] == dupsv[src]);
                assert(group_sound(dupsv[src].checksum, dupsv[src].members@, ev, rootdir@, true));
                assert(digests_agree(dupsv[src], ev)) by {
                    lemma_filter_members_agree(dupsv, i2, ev);
                }
            }
            assert forall|i2: int, j2: int|
                0 <= i2 < j2 < r@.len() implies (#[trigger] r@[i2]).checksum != (
            #[trigger] r@[j2]).checksum by {
                assert(kept[i2] < kept[j2]);
                assert(r@[i2] == dupsv[kept[i2]]);
                assert(r@[j2] == dupsv[kept[j2]]);
                assert(dupsv[kept[i2]].checksum != dupsv[kept[j2]].checksum);
            }
        }
    }
    r
}

proof fn lemma_filter_members_agree(s: Seq<DupGroup>, j: int, entries: Seq<ScanEntryV>)
    requires
        0 <= j < s.filter(|x: DupGroup| digests_agree(x, entries)).len(),
    ensures
        digests_agree(s.filter(|x: DupGroup| digests_agree(x, entries))[j], entries),
    decreases s.len(),
{
    reveal(Seq::filter);
    if s.len() > 0 {
        let f = s.drop_last().filter(|x: DupGroup| digests_agree(x, entries));
        if j < f.len() {
            lemma_filter_members_agree(s.drop_last(), j, entries);
        }
    }
}

/// Runs the full grouping pipeline over the traversed entries: validity
/// filter, size grouping, fast-fingerprint grouping, and — unless
/// `quick` — strong-digest confirmation. The result is sound and
/// complete: exactly the duplicate groups of the valid entries.
pub fn group_duplicates(rootdir: &str, entries: &Vec<ScanEntry>, quick: bool) -> (r: Vec<DupGroup>)
    ensures
        scan_sound(r@, entries_view(entries@), rootdir@, quick),
        scan_complete(r@, entries_view(entries@), rootdir@, quick),
        forall|i: int, k: int|
            0 <= i < r@.len() && 0 <= k < r@[i].members@.len() ==> has_size_mate(
                entries_view(entries@),
                rootdir@,
                #[trigger] r@[i].members@[k] as int,
            ),
{
    let ghost ev = entries_view(entries@);
    let n = entries.len();
    let mut valid: Vec<usize> = Vec::new();
    let mut i: usize = 0;
    while i < n
        invariant
            0 <= i <= n,
            n == entries@.len(),
            ev == entries_view(entries@),
            forall|k: int| 0 <= k < valid@.len() ==> (#[trigger] valid@[k]) < i,
            forall|k: int, l: int| 0 <= k < l < valid@.len() ==> (#[trigger] valid@[k]) < (
            #[trigger] valid@[l]),
            forall|k: int|
                0 <= k < valid@.len() ==> path_valid_spec(
                    rootdir@,
                    ev[#[trigger] valid@[k] as int],
                ),
            forall|j: int|
                0 <= j < i && path_valid_spec(rootdir@, #[trigger] ev[j]) ==> valid@.contains(
                    j as usize,
                ),
        decreases n - i,
    {
        if is_path_valid(rootdir, &entries[i]) {
            let ghost oldv = valid@;
            valid.push(i);
            proof {
                assert(ev[i as int] == entries@[i as int]@);
                assert forall|j: int|
                    0 <= j < i + 1 && path_valid_spec(rootdir@, #[trigger] ev[j]) implies
                    valid@.contains(j as usize) by {
                    if j == i {
                        assert(valid@[oldv.len() as int] == i as usize);
                    } else {
                        assert(oldv.contains(j as usize));
                        let k0 = choose|k0: int| 0 <= k0 < oldv.len() && oldv[k0] == j as usize;
                        assert(valid@[k0] == j as usize);
                    }
                }
            }
        } else {
            proof {
                assert(ev[i as int] == entries@[i as int]@);
                assert forall|j: int|
                    0 <= j < i + 1 && path_valid_spec(rootdir@, #[trigger] ev[j]) implies
                    valid@.contains(j as usize) by {
                    if j < i {
                        assert(valid@.contains(j as usize));
                    }
                }
            }
        }
        i = i + 1;
    }
    proof {
        assert(all_distinct(valid@));
        assert(forall|k: int| 0 <= k < valid@.len() ==> (#[trigger] valid@[k]) < entries@.len());
    }
    let buckets = group_by_size(entries, &valid);
    proof {
        // buckets of distinct sizes never share a member
        assert forall|b1: int, b2: int, k1: int, k2: int|
            0 <= b1 < buckets@.len() && 0 <= b2 < buckets@.len() && b1 != b2 && 0 <= k1
                < buckets@[b1].1@.len() && 0 <= k2 < buckets@[b2].1@.len() implies (
        #[trigger] buckets@[b1].1@[k1]) != (#[trigger] buckets@[b2].1@[k2]) by {
            if buckets@[b1].1@[k1] == buckets@[b2].1@[k2] {
                assert(entries@[buckets@[b1].1@[k1] as int].size == buckets@[b1].0);
                assert(entries@[buckets@[b2].1@[k2] as int].size == buckets@[b2].0);
                if b1 < b2 {
                    assert(buckets@[b1].0 != buckets@[b2].0);
                } else {
                    assert(buckets@[b2].0 != buckets@[b1].0);
                }
            }
        }
    }
    let cands = possible_duplicates(&buckets);
    proof {
        // each candidate is a valid entry with a same-size partner
        assert forall|k: int| 0 <= k < cands@.len() implies (#[trigger] cands@[k])
            < entries@.len() && path_valid_spec(rootdir@, ev[cands@[k] as int]) && has_size_mate(
            ev,
            rootdir@,
            cands@[k] as int,
        ) by {
            assert(in_big_bucket(buckets@, buckets@.len() as int, cands@[k]));
            let b = choose|b: int|
                0 <= b < buckets@.len() && buckets@[b].1@.len() >= 2 && bucket_has(
                    buckets@,
                    b,
                    cands@[k],
                );
            let k1 = choose|k1: int|
                0 <= k1 < buckets@[b].1@.len() && buckets@[b].1@[k1] == cands@[k];
            assert(valid@.contains(buckets@[b].1@[k1]));
            let v1 = choose|v1: int| 0 <= v1 < valid@.len() && valid@[v1] == cands@[k];
            assert(path_valid_spec(rootdir@, ev[valid@[v1] as int]));
            // a second, different member of the same bucket is the partner
            let k2: int = if k1 == 0 {
                1
            } else {
                0
            };
            let mate = buckets@[b].1@[k2];
            assert(mate != cands@[k]) by {
                assert(all_distinct(buckets@[b].1@));
            }
            assert(valid@.contains(mate));
            let v2 = choose|v2: int| 0 <= v2 < valid@.len() && valid@[v2] == mate;
            assert(path_valid_spec(rootdir@, ev[valid@[v2] as int]));
            assert(entries@[mate as int].size == buckets@[b].0);
            assert(entries@[cands@[k] as int].size == buckets@[b].0);
            assert(ev[mate as int].size == entries@[mate as int].size);
            assert(ev[cands@[k] as int].size == entries@[cands@[k] as int].size);
            assert(mate < entries@.len());
            assert(0 <= (mate as int) && (mate as int) < ev.len() && (mate as int) != (
            cands@[k] as int) && path_valid_spec(rootdir@, ev[mate as int]) && ev[mate as int].size
                == ev[cands@[k] as int].size);
        }
    }
    let dups = group_dups_by_xxh3(entries, &cands);
    proof {
        // every member of every group is a size-mated valid entry
        assert forall|i2: int, k: int|
            0 <= i2 < dups@.len() && 0 <= k < dups@[i2].members@.len() implies path_valid_spec(
            rootdir@,
            ev[#[trigger] dups@[i2].members@[k] as int],
        ) && has_size_mate(ev, rootdir@, dups@[i2].members@[k] as int) by {
            assert(cands@.contains(dups@[i2].members@[k]));
            let j = choose|j: int| 0 <= j < cands@.len() && cands@[j] == dups@[i2].members@[k];
            assert(path_valid_spec(rootdir@, ev[cands@[j] as int]));
            assert(has_size_mate(ev, rootdir@, cands@[j] as int));
        }
        assert(scan_sound(dups@, ev, rootdir@, true));
        // completeness for the fingerprint stage
        assert(ev.len() == entries@.len());
        lemma_pair_in_dups(dups@, ev, rootdir@, valid@, buckets@, cands@);
        assert(scan_complete(dups@, ev, rootdir@, true));
    }
    if !quick {
        let ghost dupsv = dups@;
        let confirmed = confirm_dups(rootdir, entries, dups);
        proof {
            assert(scan_sound(confirmed@, ev, rootdir@, false));
            // completeness survives confirmation for coherent classes
            assert forall|i2: int, j2: int|
                0 <= i2 < ev.len() && 0 <= j2 < ev.len() && i2 != j2 && path_valid_spec(
                    rootdir@,
                    #[trigger] ev[i2],
                ) && path_valid_spec(rootdir@, #[trigger] ev[j2]) && ev[i2].size == ev[j2].size
                && xxh3_of(ev[i2].contents) == xxh3_of(ev[j2].contents) && class_coherent(
                ev,
                rootdir@,
                xxh3_of(ev[i2].contents),
            ) implies exists|g: int|
                #![trigger confirmed@[g]]
                0 <= g < confirmed@.len() && confirmed@[g].checksum == xxh3_of(ev[i2].contents)
                    && confirmed@[g].members@.contains(i2 as usize)
                    && confirmed@[g].members@.contains(j2 as usize) by {
                let h = xxh3_of(ev[i2].contents);
                assert(scan_complete(dupsv, ev, rootdir@, true));
                let g0 = choose|g0: int|
                    #![trigger dupsv[g0]]
                    0 <= g0 < dupsv.len() && dupsv[g0].checksum == h
                        && dupsv[g0].members@.contains(i2 as usize)
                        && dupsv[g0].members@.contains(j2 as usize);
                // a coherent class makes the group's digests agree
                assert(digests_agree(dupsv[g0], ev)) by {
                    assert forall|k: int, l: int|
                        0 <= k < dupsv[g0].members@.len() && 0 <= l < dupsv[g0].members@.len()
                            implies sha256_of(
                        ev[#[trigger] dupsv[g0].members@[k] as int].contents,
                    ) == sha256_of(ev[#[trigger] dupsv[g0].members@[l] as int].contents) by {
                        let mk = dupsv[g0].members@[k] as int;
                        let ml = dupsv[g0].members@[l] as int;
                        assert(has_size_mate(ev, rootdir@, mk));
                        assert(has_size_mate(ev, rootdir@, ml));
                        assert(xxh3_of(ev[mk].contents) == h);
                        assert(xxh3_of(ev[ml].contents) == h);
                    }
                }
                lemma_dup_filter_keeps(dupsv, g0, ev);
                assert(confirmed@.contains(dupsv[g0]));
                let g = choose|g: int| 0 <= g < confirmed@.len() && confirmed@[g] == dupsv[g0];
                assert(confirmed@[g].checksum == h);
            }
            assert(scan_complete(confirmed@, ev, rootdir@, false));
            // size-mate soundness carries over
            assert forall|i2: int, k: int|
                0 <= i2 < confirmed@.len() && 0 <= k < confirmed@[i2].members@.len() implies
                has_size_mate(ev, rootdir@, #[trigger] confirmed@[i2].members@[k] as int) by {
                lemma_dup_filter_in(dupsv, i2, ev);
                let j = choose|j: int| 0 <= j < dupsv.len() && dupsv[j] == confirmed@[i2];
                assert(has_size_mate(ev, rootdir@, dupsv[j].members@[k] as int));
            }
        }
        confirmed
    } else {
        dups
    }
}

proof fn lemma_dup_filter_in(s: Seq<DupGroup>, j: int, entries: Seq<ScanEntryV>)
    requires
        0 <= j < s.filter(|x: DupGroup| digests_agree(x, entries)).len(),
    ensures
        exists|i: int| 0 <= i < s.len() && s[i] == s.filter(
            |x: DupGroup| digests_agree(x, entries),
        )[j],
    decreases s.len(),
{
    reveal(Seq::filter);
    if s.len() > 0 {
        let f = s.drop_last().filter(|x: DupGroup| digests_agree(x, entries));
        if j < f.len() {
            lemma_dup_filter_in(s.drop_last(), j, entries);
            let i = choose|i: int| 0 <= i < s.drop_last().len() && s.drop_last()[i] == f[j];
            assert(s[i] == f[j]);
        } else {
            assert(s[s.len() - 1] == s.filter(|x: DupGroup| digests_agree(x, entries))[j]);
        }
    }
}

proof fn lemma_pair_in_dups(
    dups: Seq<DupGroup>,
    ev: Seq<ScanEntryV>,
    root: Seq<char>,
    valid: Seq<usize>,
    buckets: Seq<(u64, Vec<usize>)>,
    cands: Seq<usize>,
)
    requires
        ev.len() <= usize::MAX,
        forall|k: int| 0 <= k < valid.len() ==> (#[trigger] valid[k]) < ev.len(),
        forall|k: int, l: int| 0 <= k < l < valid.len() ==> (#[trigger] valid[k]) < (
        #[trigger] valid[l]),
        forall|j: int|
            0 <= j < ev.len() && path_valid_spec(root, #[trigger] ev[j]) ==> valid.contains(
                j as usize,
            ),
        forall|b: int, k: int|
            0 <= b < buckets.len() && 0 <= k < buckets[b].1@.len() ==> valid.contains(
                #[trigger] buckets[b].1@[k],
            ),
        forall|b: int, k: int|
            0 <= b < buckets.len() && 0 <= k < buckets[b].1@.len() ==> ev[#[trigger] buckets[b].1@[k] as int].size
                == buckets[b].0,
        forall|b1: int, b2: int|
            0 <= b1 < b2 < buckets.len() ==> (#[trigger] buckets[b1]).0 != (
            #[trigger] buckets[b2]).0,
        forall|k: int| 0 <= k < valid.len() ==> in_some_bucket(buckets, #[trigger] valid[k]),
        forall|b: int, k: int|
            0 <= b < buckets.len() && buckets[b].1@.len() >= 2 && 0 <= k < buckets[b].1@.len()
                ==> cands.contains(#[trigger] buckets[b].1@[k]),
        forall|k: int|
            0 <= k < cands.len() && (exists|l: int|
                0 <= l < cands.len() && l != k && xxh3_of(ev[#[trigger] cands[l] as int].contents)
                    == xxh3_of(ev[cands[k] as int].contents)) ==> in_group_of(
                dups,
                ev,
                #[trigger] cands[k],
            ),
        forall|i: int, j: int|
            0 <= i < j < dups.len() ==> (#[trigger] dups[i]).checksum != (
            #[trigger] dups[j]).checksum,
    ensures
        scan_complete(dups, ev, root, true),
{
    assert forall|i: int, j: int|
        0 <= i < ev.len() && 0 <= j < ev.len() && i != j && path_valid_spec(
            root,
            #[trigger] ev[i],
        ) && path_valid_spec(root, #[trigger] ev[j]) && ev[i].size == ev[j].size && xxh3_of(
            ev[i].contents,
        ) == xxh3_of(ev[j].contents) implies exists|g: int|
        #![trigger dups[g]]
        0 <= g < dups.len() && dups[g].checksum == xxh3_of(ev[i].contents)
            && dups[g].members@.contains(i as usize) && dups[g].members@.contains(j as usize) by {
        let h = xxh3_of(ev[i].contents);
        // both entries are in the valid list
        assert(valid.contains(i as usize));
        assert(valid.contains(j as usize));
        let vi = choose|vi: int| 0 <= vi < valid.len() && valid[vi] == i as usize;
        let vj = choose|vj: int| 0 <= vj < valid.len() && valid[vj] == j as usize;
        // both land in the bucket of their shared size
        assert(in_some_bucket(buckets, valid[vi]));
        assert(in_some_bucket(buckets, valid[vj]));
        let bi = choose|bi: int|
            0 <= bi < buckets.len() && bucket_has(buckets, bi, valid[vi]);
        let bj = choose|bj: int|
            0 <= bj < buckets.len() && bucket_has(buckets, bj, valid[vj]);
        let ki = choose|ki: int| 0 <= ki < buckets[bi].1@.len() && buckets[bi].1@[ki] == i as usize;
        let kj = choose|kj: int| 0 <= kj < buckets[bj].1@.len() && buckets[bj].1@[kj] == j as usize;
        assert(buckets[bi].0 == ev[i].size);
        assert(buckets[bj].0 == ev[j].size);
        assert(bi == bj) by {
            if bi < bj {
                assert(buckets[bi].0 != buckets[bj].0);
            } else if bj < bi {
                assert(buckets[bj].0 != buckets[bi].0);
            }
        }
        assert(ki != kj);
        assert(buckets[bi].1@.len() >= 2);
        // both are candidates
        assert(cands.contains(i as usize));
        assert(cands.contains(j as usize));
        let ci = choose|ci: int| 0 <= ci < cands.len() && cands[ci] == i as usize;
        let cj = choose|cj: int| 0 <= cj < cands.len() && cands[cj] == j as usize;
        assert(ci != cj);
        // the fingerprint stage put the pair in the group keyed `h`
        assert(exists|l: int|
            0 <= l < cands.len() && l != ci && xxh3_of(ev[#[trigger] cands[l] as int].contents)
                == xxh3_of(ev[cands[ci] as int].contents)) by {
            assert(xxh3_of(ev[cands[cj] as int].contents) == xxh3_of(
                ev[cands[ci] as int].contents,
            ));
        }
        assert(exists|l: int|
            0 <= l < cands.len() && l != cj && xxh3_of(ev[#[trigger] cands[l] as int].contents)
                == xxh3_of(ev[cands[cj] as int].contents)) by {
            assert(xxh3_of(ev[cands[ci] as int].contents) == xxh3_of(
                ev[cands[cj] as int].contents,
            ));
        }
        assert(in_group_of(dups, ev, cands[ci]));
        assert(in_group_of(dups, ev, cands[cj]));
        let gi = choose|gi: int|
            0 <= gi < dups.len() && (#[trigger] dups[gi]).checksum == xxh3_of(
                ev[cands[ci] as int].contents,
            ) && dups[gi].members@.contains(cands[ci]);
        let gj = choose|gj: int|
            0 <= gj < dups.len() && (#[trigger] dups[gj]).checksum == xxh3_of(
                ev[cands[cj] as int].contents,
            ) && dups[gj].members@.contains(cands[cj]);
        assert(dups[gi].checksum == dups[gj].checksum);
        assert(gi == gj) by {
            if gi < gj {
                assert(dups[gi].checksum != dups[gj].checksum);
            } else if gj < gi {
                assert(dups[gj].checksum != dups[gi].checksum);
            }
        }
        assert(dups[gi].members@.contains(i as usize));
        assert(dups[gi].members@.contains(j as usize));
    }
}

/// Scans the traversed entries for duplicate groups: a sound and
/// complete grouping of the valid entries by content.
pub fn scan(rootdir: &str, entries: &Vec<ScanEntry>, quick: bool) -> (r: Vec<DupGroup>)
    ensures
        scan_sound(r@, entries_view(entries@), rootdir@, quick),
        scan_complete(r@, entries_view(entries@), rootdir@, quick),
        forall|i: int, k: int|
            0 <= i < r@.len() && 0 <= k < r@[i].members@.len() ==> has_size_mate(
                entries_view(entries@),
                rootdir@,
                #[trigger] r@[i].members@[k] as int,
            ),
{
    group_duplicates(rootdir, entries, quick)
}

} // verus!
