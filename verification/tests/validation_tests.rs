use dupenukem::executor::Action;
use dupenukem::fsview::{FsEntry, FsView, PathState};
use dupenukem::hash::Checksum;
use dupenukem::snapshot::validation::{validate, verify_symlink_source_path, Error};
use dupenukem::snapshot::{FileOp, FilePath, Group, Snapshot};

fn file_state(checksum: u64) -> PathState {
    PathState {
        exists: true,
        is_symlink: false,
        is_file: true,
        link_target: None,
        canonical: None,
        checksum: Some(checksum),
        size: 5,
    }
}

fn dir_state() -> PathState {
    PathState {
        exists: true,
        is_symlink: false,
        is_file: false,
        link_target: None,
        canonical: None,
        checksum: None,
        size: 0,
    }
}

fn link_state(target: &str, checksum: u64) -> PathState {
    PathState {
        exists: true,
        is_symlink: true,
        is_file: false,
        link_target: Some(target.to_owned()),
        canonical: None,
        checksum: Some(checksum),
        size: 5,
    }
}

fn resolvable_state(canonical: &str) -> PathState {
    PathState {
        exists: true,
        is_symlink: false,
        is_file: true,
        link_target: None,
        canonical: Some(canonical.to_owned()),
        checksum: Some(42),
        size: 5,
    }
}

fn view_of(entries: Vec<(&str, PathState)>) -> FsView {
    FsView {
        entries: entries
            .into_iter()
            .map(|(p, st)| FsEntry { path: p.to_owned(), state: st })
            .collect(),
    }
}

fn snapshot_of(groups: Vec<Group>) -> Snapshot {
    Snapshot {
        rootdir: "/r".to_owned(),
        generated_at: "Tue, 12 Dec 2023 16:00:44 +0530".to_owned(),
        duplicates: groups,
    }
}

#[test]
fn test_verify_symlink_source_path_parallel() {
    let view = FsView::new();
    let t = "/private/tmp/bar/current";
    // Cases:
    //
    // is_explicit           : true|false
    // intended source type  : abs|rel
    // actual source type    : abs|rel

    // (true, abs, abs)
    let i = "/private/tmp/foo/1.txt";
    // when both paths match
    let a = "/private/tmp/foo/1.txt";
    match verify_symlink_source_path(i, a, t, true, &view) {
        Ok(b) => assert!(b),
        Err(_) => assert!(false),
    }
    // when paths don't match
    let b = "/private/tmp/bar/1.txt";
    match verify_symlink_source_path(i, b, t, true, &view) {
        Ok(b) => assert!(!b),
        Err(_) => assert!(false),
    }

    // (true, abs, rel)
    let i = "/private/tmp/foo/1.txt";
    let a = "../foo/1.txt";
    match verify_symlink_source_path(i, a, t, true, &view) {
        Ok(b) => assert!(!b),
        Err(_) => assert!(false),
    }

    // (true, rel, rel)
    let i = "../foo/1.txt";
    // when both paths match
    let a = "../foo/1.txt";
    match verify_symlink_source_path(i, a, t, true, &view) {
        Ok(b) => assert!(b),
        Err(_) => assert!(false),
    }
    // when paths don't match
    let b = "../bar/1.txt";
    match verify_symlink_source_path(i, b, t, true, &view) {
        Ok(b) => assert!(!b),
        Err(_) => assert!(false),
    }

    // (true, rel, abs)
    let i = "../foo/1.txt";
    let a = "foo/1.txt";
    match verify_symlink_source_path(i, a, t, true, &view) {
        Ok(b) => assert!(!b),
        Err(_) => assert!(false),
    }

    // (false, abs, abs)
    let i = "/private/tmp/foo/1.txt";
    // when both paths match
    let a = "/private/tmp/foo/1.txt";
    match verify_symlink_source_path(i, a, t, false, &view) {
        Ok(b) => assert!(b),
        Err(_) => assert!(false),
    }
    // when paths don't match
    let b = "/private/tmp/bar/1.txt";
    match verify_symlink_source_path(i, b, t, false, &view) {
        Ok(b) => assert!(!b),
        Err(_) => assert!(false),
    }

    // (false, abs, rel) <- resolved through the recorded filesystem
    // view; see test_verify_symlink_source_path_resolved.

    // (false, rel, rel) <- exceptional case not expected unless
    // there's a bug
    let i = "../foo/1.txt";
    let a = "../foo/1.txt";
    assert!(verify_symlink_source_path(i, a, t, false, &view).is_err());

    // (false, rel, abs) <- exceptional case not expected unless
    // there's a bug
    let i = "../foo/1.txt";
    let a = "/tmp/foo/1.txt";
    assert!(verify_symlink_source_path(i, a, t, false, &view).is_err());
}

#[test]
fn test_verify_symlink_source_path_resolved() {
    // (false, abs, rel): the stored link text resolves against the
    // target's parent to the intended source
    let target = "/private/tmp/bar/current";
    let view = view_of(vec![
        ("/private/tmp/bar/../foo/1.txt", resolvable_state("/private/tmp/foo/1.txt")),
        ("/private/tmp/bar/../cat/1.txt", resolvable_state("/private/tmp/cat/1.txt")),
    ]);
    let i = "/private/tmp/foo/1.txt";
    match verify_symlink_source_path(i, "../foo/1.txt", target, false, &view) {
        Ok(b) => assert!(b),
        Err(_) => assert!(false),
    }
    match verify_symlink_source_path(i, "../cat/1.txt", target, false, &view) {
        Ok(b) => assert!(!b),
        Err(_) => assert!(false),
    }
}

#[test]
fn test_validate_implicit_symlink() {
    // keeper keeps, second file becomes a symlink to it
    let snap = snapshot_of(vec![Group {
        checksum: Checksum::new(42),
        files: vec![
            FilePath { path: "/r/a/1.txt".to_owned(), op: FileOp::Keep },
            FilePath { path: "/r/b/1.txt".to_owned(), op: FileOp::Symlink { source: None } },
        ],
    }]);
    let view = view_of(vec![
        ("/r", dir_state()),
        ("/r/a/1.txt", file_state(42)),
        ("/r/b/1.txt", file_state(42)),
    ]);
    let actions = validate(&snap, false, &view).unwrap();
    assert_eq!(2, actions.len());
    assert_eq!(Action::Keep("/r/a/1.txt".to_owned()), actions[0]);
    assert_eq!(
        Action::Symlink {
            path: "/r/b/1.txt".to_owned(),
            source: "/r/a/1.txt".to_owned(),
            is_explicit: false,
            is_no_op: false,
        },
        actions[1]
    );
}

#[test]
fn test_validate_symlink_noop() {
    // the target is already the intended symlink: a no-op
    let snap = snapshot_of(vec![Group {
        checksum: Checksum::new(42),
        files: vec![
            FilePath { path: "/r/a/1.txt".to_owned(), op: FileOp::Keep },
            FilePath { path: "/r/b/1.txt".to_owned(), op: FileOp::Symlink { source: None } },
        ],
    }]);
    let view = view_of(vec![
        ("/r", dir_state()),
        ("/r/a/1.txt", file_state(42)),
        ("/r/b/1.txt", link_state("../a/1.txt", 42)),
        ("/r/b/../a/1.txt", resolvable_state("/r/a/1.txt")),
    ]);
    let actions = validate(&snap, false, &view).unwrap();
    assert_eq!(2, actions.len());
    assert_eq!(
        Action::Symlink {
            path: "/r/b/1.txt".to_owned(),
            source: "/r/a/1.txt".to_owned(),
            is_explicit: false,
            is_no_op: true,
        },
        actions[1]
    );
}

#[test]
fn test_validate_wrong_explicit_source() {
    // `symlink <t> -> <wrong>` where the source hashes differently
    let snap = snapshot_of(vec![Group {
        checksum: Checksum::new(42),
        files: vec![
            FilePath { path: "/r/a/1.txt".to_owned(), op: FileOp::Keep },
            FilePath {
                path: "/r/b/1.txt".to_owned(),
                op: FileOp::Symlink { source: Some("/r/a/2.txt".to_owned()) },
            },
        ],
    }]);
    let view = view_of(vec![
        ("/r", dir_state()),
        ("/r/a/1.txt", file_state(42)),
        ("/r/b/1.txt", file_state(42)),
        ("/r/a/2.txt", file_state(43)),
    ]);
    match validate(&snap, false, &view) {
        Err(Error::OpNotPossible(_)) => assert!(true),
        _ => assert!(false),
    }
}

#[test]
fn test_validate_full_deletion() {
    // a group fully marked delete: refused without the flag, allowed with it
    let groups = || {
        vec![Group {
            checksum: Checksum::new(42),
            files: vec![
                FilePath { path: "/r/a/1.txt".to_owned(), op: FileOp::Delete },
                FilePath { path: "/r/b/1.txt".to_owned(), op: FileOp::Delete },
                FilePath { path: "/r/c/1.txt".to_owned(), op: FileOp::Delete },
            ],
        }]
    };
    let view = view_of(vec![
        ("/r", dir_state()),
        ("/r/a/1.txt", resolvable_state("/r/a/1.txt")),
        ("/r/b/1.txt", resolvable_state("/r/b/1.txt")),
        ("/r/c/1.txt", resolvable_state("/r/c/1.txt")),
    ]);
    match validate(&snapshot_of(groups()), false, &view) {
        Err(Error::OpNotAllowed(_)) => assert!(true),
        _ => assert!(false),
    }
    let actions = validate(&snapshot_of(groups()), true, &view).unwrap();
    assert_eq!(3, actions.len());
    for a in &actions {
        match a {
            Action::Delete { is_no_op, .. } => assert!(!is_no_op),
            _ => assert!(false),
        }
    }
}

#[test]
fn test_validate_deleted_already() {
    // re-applying a snapshot where a file was already deleted: a no-op
    let snap = snapshot_of(vec![Group {
        checksum: Checksum::new(42),
        files: vec![
            FilePath { path: "/r/a/1.txt".to_owned(), op: FileOp::Keep },
            FilePath { path: "/r/b/1.txt".to_owned(), op: FileOp::Delete },
        ],
    }]);
    let view = view_of(vec![("/r", dir_state()), ("/r/a/1.txt", file_state(42))]);
    let actions = validate(&snap, false, &view).unwrap();
    assert_eq!(
        Action::Delete { path: "/r/b/1.txt".to_owned(), is_no_op: true },
        actions[1]
    );
}

#[test]
fn test_validate_checksum_mismatch() {
    // content changed between render and validate
    let snap = snapshot_of(vec![Group {
        checksum: Checksum::new(42),
        files: vec![
            FilePath { path: "/r/a/1.txt".to_owned(), op: FileOp::Keep },
            FilePath { path: "/r/b/1.txt".to_owned(), op: FileOp::Symlink { source: None } },
        ],
    }]);
    let view = view_of(vec![
        ("/r", dir_state()),
        ("/r/a/1.txt", file_state(42)),
        ("/r/b/1.txt", file_state(99)),
    ]);
    match validate(&snap, false, &view) {
        Err(Error::ChecksumMismatch { path, actual, expected }) => {
            assert_eq!("/r/b/1.txt", path);
            assert_eq!("99", actual);
            assert_eq!("42", expected);
        }
        _ => assert!(false),
    }
}

#[test]
fn test_validate_missing_root() {
    let snap = snapshot_of(vec![]);
    let view = FsView::new();
    match validate(&snap, false, &view) {
        Err(Error::RootDir(_)) => assert!(true),
        _ => assert!(false),
    }
}

#[test]
fn test_validate_small_group_corrupt() {
    let snap = snapshot_of(vec![Group {
        checksum: Checksum::new(42),
        files: vec![FilePath { path: "/r/a/1.txt".to_owned(), op: FileOp::Keep }],
    }]);
    let view = view_of(vec![("/r", dir_state())]);
    match validate(&snap, false, &view) {
        Err(Error::CorruptSnapshot(_)) => assert!(true),
        _ => assert!(false),
    }
}

#[test]
fn test_validate_keep_on_symlink() {
    let snap = snapshot_of(vec![Group {
        checksum: Checksum::new(42),
        files: vec![
            FilePath { path: "/r/a/1.txt".to_owned(), op: FileOp::Keep },
            FilePath { path: "/r/b/1.txt".to_owned(), op: FileOp::Keep },
        ],
    }]);
    let view = view_of(vec![
        ("/r", dir_state()),
        ("/r/a/1.txt", link_state("../b/1.txt", 42)),
        ("/r/b/1.txt", file_state(42)),
    ]);
    match validate(&snap, false, &view) {
        Err(Error::OpNotPossible(_)) => assert!(true),
        _ => assert!(false),
    }
}
