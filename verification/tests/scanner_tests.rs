use dupenukem::scanner::{confirm_dups, is_path_valid, scan, DupGroup, ScanEntry};
use dupenukem::hash::xxh3_64;
use dupenukem::snapshot::Snapshot;

fn file_entry(path: &str, contents: &[u8]) -> ScanEntry {
    ScanEntry {
        path: path.to_owned(),
        is_symlink: false,
        link_target: None,
        canonical: Some(path.to_owned()),
        size: contents.len() as u64,
        contents: contents.to_vec(),
    }
}

fn link_entry(path: &str, target: &str, canonical: Option<&str>, contents: &[u8]) -> ScanEntry {
    ScanEntry {
        path: path.to_owned(),
        is_symlink: true,
        link_target: Some(target.to_owned()),
        canonical: canonical.map(|c| c.to_owned()),
        size: contents.len() as u64,
        contents: contents.to_vec(),
    }
}

#[test]
fn test_scan_groups_duplicates() {
    let entries = vec![
        file_entry("/r/a/1.txt", b"hello"),
        file_entry("/r/b/1.txt", b"hello"),
        file_entry("/r/c.txt", b"world"),
    ];
    let groups = scan("/r", &entries, false);
    assert_eq!(1, groups.len());
    assert_eq!(xxh3_64(b"hello"), groups[0].checksum);
    assert_eq!(vec![0usize, 1usize], groups[0].members);

    // quick mode groups the same way here
    let groups = scan("/r", &entries, true);
    assert_eq!(1, groups.len());
    assert_eq!(vec![0usize, 1usize], groups[0].members);
}

#[test]
fn test_scan_root_is_symlink() {
    // the root's canonical form differs from its spelled form: symlinks
    // are checked against the canonical root
    let inside = link_entry("/tmp/l.txt", "../foo/1.txt", Some("/private/tmp/foo/1.txt"), b"x");
    let outside = link_entry("/tmp/m.txt", "/etc/x", Some("/etc/x"), b"x");
    let broken = link_entry("/tmp/n.txt", "gone", None, b"");
    assert!(is_path_valid("/private/tmp", &inside));
    assert!(!is_path_valid("/private/tmp", &outside));
    assert!(!is_path_valid("/private/tmp", &broken));
}

#[test]
fn test_scan_skips_icon_artifacts() {
    let icon = file_entry("/r/sub/Icon\r", b"hello");
    assert!(!is_path_valid("/r", &icon));
    let entries = vec![
        file_entry("/r/a/1.txt", b"hello"),
        icon,
        file_entry("/r/b/1.txt", b"hello"),
    ];
    let groups = scan("/r", &entries, false);
    assert_eq!(1, groups.len());
    assert_eq!(vec![0usize, 2usize], groups[0].members);
}

#[test]
fn test_of_rootdir_skip_deduped() {
    // a group already in `one keep + symlinks` form disappears with
    // skip_deduped: the symlink resolves to the keeper inside the root
    let entries = vec![
        file_entry("/r/a/1.txt", b"hello"),
        link_entry("/r/b/1.txt", "../a/1.txt", Some("/r/a/1.txt"), b"hello"),
    ];
    let snap = Snapshot::of_rootdir(
        "/r",
        "/r",
        "Tue, 12 Dec 2023 16:00:44 +0530".to_owned(),
        &entries,
        false,
        true,
    );
    assert_eq!(0, snap.duplicates.len());

    let snap = Snapshot::of_rootdir(
        "/r",
        "/r",
        "Tue, 12 Dec 2023 16:00:44 +0530".to_owned(),
        &entries,
        false,
        false,
    );
    assert_eq!(1, snap.duplicates.len());
    assert_eq!(2, snap.duplicates[0].files.len());
}

#[test]
fn test_confirm_drops_digest_mismatch() {
    // two files that happen to share a fast fingerprint but have
    // different contents (and so different strong digests) are dropped
    // as a collision during confirmation
    let entries = vec![
        file_entry("/r/a/1.txt", b"hello"),
        file_entry("/r/b/1.txt", b"world"),
    ];
    let colliding = vec![DupGroup { checksum: xxh3_64(b"hello"), members: vec![0, 1] }];
    let confirmed = confirm_dups("/r", &entries, colliding);
    assert_eq!(0, confirmed.len());

    // files with identical contents survive confirmation
    let entries = vec![
        file_entry("/r/a/1.txt", b"hello"),
        file_entry("/r/b/1.txt", b"hello"),
    ];
    let same = vec![DupGroup { checksum: xxh3_64(b"hello"), members: vec![0, 1] }];
    let confirmed = confirm_dups("/r", &entries, same);
    assert_eq!(1, confirmed.len());
    assert_eq!(vec![0usize, 1usize], confirmed[0].members);
}
