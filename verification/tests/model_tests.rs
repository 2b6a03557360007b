use dupenukem::snapshot::{find_keeper, is_group_deduped, FileOp, FilePath};

#[test]
fn test_find_keeper() {
    let fps = vec![
        FilePath { path: "d.txt".to_owned(), op: FileOp::Keep },
        FilePath { path: "a.txt".to_owned(), op: FileOp::Delete },
        FilePath { path: "b.txt".to_owned(), op: FileOp::Keep },
        FilePath { path: "c.txt".to_owned(), op: FileOp::Keep },
        FilePath { path: "e.txt".to_owned(), op: FileOp::Delete },
    ];
    assert_eq!(Some(2), find_keeper(&fps));

    let fps = vec![
        FilePath { path: "d.txt".to_owned(), op: FileOp::Delete },
        FilePath { path: "a.txt".to_owned(), op: FileOp::Delete },
    ];
    assert!(find_keeper(&fps).is_none());
}

#[test]
fn test_is_group_deduped() {
    let g = vec![
        FilePath { path: "/foo/1.txt".to_owned(), op: FileOp::Keep },
        FilePath { path: "/bar/1.txt".to_owned(), op: FileOp::Symlink { source: None } },
        FilePath { path: "/cat/1.txt".to_owned(), op: FileOp::Symlink { source: None } },
    ];
    assert!(is_group_deduped(&g));

    let g = vec![
        FilePath { path: "/foo/1.txt".to_owned(), op: FileOp::Keep },
        FilePath { path: "/bar/1.txt".to_owned(), op: FileOp::Keep },
        FilePath { path: "/cat/1.txt".to_owned(), op: FileOp::Symlink { source: None } },
    ];
    assert!(!is_group_deduped(&g));

    let g = vec![FilePath { path: "/foo/1.txt".to_owned(), op: FileOp::Keep }];
    assert!(is_group_deduped(&g));
}

#[test]
fn test_filepath_new_symlink() {
    let fp = FilePath::new("/r/a/1.txt".to_owned(), true, Some("../b/1.txt".to_owned()));
    assert_eq!(FileOp::Symlink { source: Some("../b/1.txt".to_owned()) }, fp.op);
    assert_eq!("/r/a/1.txt", fp.path);

    let fp = FilePath::new("/r/a/1.txt".to_owned(), false, None);
    assert_eq!(FileOp::Keep, fp.op);
}

#[test]
fn test_fileop_decode_keyword() {
    assert_eq!(Some(FileOp::Keep), FileOp::decode("keep", None));
    assert_eq!(
        Some(FileOp::Symlink { source: Some("x".to_owned()) }),
        FileOp::decode("symlink", Some("x"))
    );
    assert_eq!(Some(FileOp::Delete), FileOp::decode("delete", None));
    assert_eq!(None, FileOp::decode("create", None));
    assert_eq!("keep", FileOp::Keep.keyword());
    assert_eq!("symlink", FileOp::Symlink { source: None }.keyword());
    assert_eq!("delete", FileOp::Delete.keyword());
}
