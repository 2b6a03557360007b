use dupenukem::executor::{dry_run_line, execute, pending_actions, Action, ExecStep};

#[test]
fn test_pending_actions() {
    let p1 = "/a/1.txt";
    let p2 = "/a/2.txt";
    let p3 = "/a/3.txt";
    let p4 = "/a/4.txt";
    let actions = vec![
        Action::Keep(p1.to_owned()),
        Action::Symlink {
            path: p2.to_owned(),
            source: p3.to_owned(),
            is_no_op: true,
            is_explicit: true,
        },
        Action::Delete { path: p4.to_owned(), is_no_op: false },
    ];
    assert_eq!(2, pending_actions(&actions, true).len());
    assert_eq!(1, pending_actions(&actions, false).len());
}

#[test]
fn test_execute_dry_run_plan() {
    let actions = vec![
        Action::Keep("/r/a/1.txt".to_owned()),
        Action::Symlink {
            path: "/r/b/1.txt".to_owned(),
            source: "/r/a/1.txt".to_owned(),
            is_explicit: false,
            is_no_op: false,
        },
    ];
    let steps = execute(&actions, true, "/r").unwrap();
    assert_eq!(1, steps.len());
    assert_eq!(
        ExecStep::ReplaceWithSymlink {
            path: "/r/b/1.txt".to_owned(),
            rel_path: "b/1.txt".to_owned(),
            src_path: "../a/1.txt".to_owned(),
            is_no_op: false,
        },
        steps[0]
    );
    assert_eq!(
        "[DRY RUN] File to be replaced with symlink: b/1.txt -> ../a/1.txt".to_owned(),
        dry_run_line(&steps[0])
    );
}

#[test]
fn test_execute_skips_noops_when_not_dry() {
    let actions = vec![
        Action::Symlink {
            path: "/r/b/1.txt".to_owned(),
            source: "/r/a/1.txt".to_owned(),
            is_explicit: false,
            is_no_op: true,
        },
        Action::Delete { path: "/r/c/1.txt".to_owned(), is_no_op: false },
    ];
    // not a dry run: the no-op symlink is dropped
    let steps = execute(&actions, false, "/r").unwrap();
    assert_eq!(1, steps.len());
    assert_eq!(
        ExecStep::DeleteFile {
            path: "/r/c/1.txt".to_owned(),
            rel_path: "c/1.txt".to_owned(),
            is_no_op: false,
        },
        steps[0]
    );
    // dry run: the no-op is shown
    let steps = execute(&actions, true, "/r").unwrap();
    assert_eq!(2, steps.len());
    assert_eq!(
        "[DRY RUN][NO-OP] File to be replaced with symlink: b/1.txt -> ../a/1.txt".to_owned(),
        dry_run_line(&steps[0])
    );
    assert_eq!(
        "[DRY RUN] File to be deleted: c/1.txt".to_owned(),
        dry_run_line(&steps[1])
    );
}

#[test]
fn test_execute_explicit_source_kept() {
    let actions = vec![Action::Symlink {
        path: "/r/b/1.txt".to_owned(),
        source: "../a/1.txt".to_owned(),
        is_explicit: true,
        is_no_op: false,
    }];
    let steps = execute(&actions, false, "/r").unwrap();
    match &steps[0] {
        ExecStep::ReplaceWithSymlink { src_path, .. } => {
            assert_eq!("../a/1.txt", src_path);
        }
        _ => assert!(false),
    }
}
