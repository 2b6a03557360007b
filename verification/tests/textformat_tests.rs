use dupenukem::error::AppError;
use dupenukem::hash::Checksum;
use dupenukem::snapshot::textformat::{parse, Line};
use dupenukem::snapshot::{FileOp, FilePath};

// Tests for Line enum methods

#[test]
fn test_line_decode_blank() {
    let x = Line::decode("");
    assert!(x.is_ok());
    assert_eq!(Line::Blank, x.unwrap());

    let x = Line::decode("  ");
    assert!(x.is_ok());
    assert_eq!(Line::Blank, x.unwrap());
}

#[test]
fn test_line_decode_comment() {
    let x = Line::decode("# This is a comment");
    assert!(x.is_ok());
    assert_eq!(Line::Comment("This is a comment".to_owned()), x.unwrap());

    let x = Line::decode("# ");
    assert!(x.is_ok());
    assert_eq!(Line::Comment("".to_owned()), x.unwrap());
}

#[test]
fn test_line_decode_metadata() {
    let x = Line::decode("#! Root Directory: /path/to/rootdir");
    assert!(x.is_ok());
    assert_eq!(
        Line::MetaData { key: "Root Directory".to_owned(), val: "/path/to/rootdir".to_owned() },
        x.unwrap()
    );

    // Without space after colon
    let x = Line::decode("#! Root Directory:/path/to/rootdir");
    assert!(x.is_ok());
    assert_eq!(
        Line::MetaData { key: "Root Directory".to_owned(), val: "/path/to/rootdir".to_owned() },
        x.unwrap()
    );

    // Without space after exclamation
    let x = Line::decode("#!Root Directory:/path/to/rootdir");
    assert!(x.is_ok());
    assert_eq!(
        Line::MetaData { key: "Root Directory".to_owned(), val: "/path/to/rootdir".to_owned() },
        x.unwrap()
    );

    // Unrecognized metadata
    let x = Line::decode("#! Foo: bar");
    assert!(x.is_ok());
    assert_eq!(Line::MetaData { key: "Foo".to_owned(), val: "bar".to_owned() }, x.unwrap());

    // When `#!` prefix is incorrectly used
    match Line::decode("#!") {
        Err(AppError::SnapshotParsing) => assert!(true),
        Err(_) => assert!(false),
        Ok(_) => assert!(false),
    }

    match Line::decode("#! Just a comment by mistake") {
        Err(AppError::SnapshotParsing) => assert!(true),
        Err(_) => assert!(false),
        Ok(_) => assert!(false),
    }

    match Line::decode("#! Empty metadata: ") {
        Err(AppError::SnapshotParsing) => assert!(true),
        Err(_) => assert!(false),
        Ok(_) => assert!(false),
    }
}

#[test]
fn test_line_decode_checksum() {
    let x = Line::decode("[fd2dd43f6cd0565ed876ca1ac2dfc708]");
    match x {
        Ok(Line::Checksum(d)) => {
            assert_eq!("fd2dd43f6cd0565ed876ca1ac2dfc708".to_owned(), d);
        }
        _ => assert!(false),
    }
}

#[test]
fn test_line_decode_pathinfo() {
    // keep
    let x = Line::decode("keep /foo/bar/1.txt");
    assert!(x.is_ok());
    assert_eq!(
        Line::PathInfo {
            path: "/foo/bar/1.txt".to_owned(),
            op: "keep".to_owned(),
            delim: None,
            extra: None,
        },
        x.unwrap()
    );

    // symlink
    let y = Line::decode("symlink /foo/bar/1.txt");
    assert!(y.is_ok());
    assert_eq!(
        Line::PathInfo {
            path: "/foo/bar/1.txt".to_owned(),
            op: "symlink".to_owned(),
            delim: Some("->".to_owned()),
            extra: None,
        },
        y.unwrap()
    );

    let y = Line::decode("symlink /foo/bar/1.txt -> /foo/cat/1.txt");
    assert!(y.is_ok());
    assert_eq!(
        Line::PathInfo {
            path: "/foo/bar/1.txt".to_owned(),
            op: "symlink".to_owned(),
            delim: Some("->".to_owned()),
            extra: Some("/foo/cat/1.txt".to_owned()),
        },
        y.unwrap()
    );

    let y = Line::decode("symlink /foo/bar/1.txt ->");
    assert!(y.is_ok());
    assert_eq!(
        Line::PathInfo {
            path: "/foo/bar/1.txt".to_owned(),
            op: "symlink".to_owned(),
            delim: Some("->".to_owned()),
            extra: None,
        },
        y.unwrap()
    );

    match Line::decode("symlink /foo/bar/1.txt -> /cat/1.txt -> /dog/2.txt") {
        Err(AppError::SnapshotParsing) => assert!(true),
        Err(_) => assert!(false),
        Ok(_) => assert!(false),
    }

    // delete
    let z = Line::decode("delete /foo/bar/1.txt");
    assert!(z.is_ok());
    assert_eq!(
        Line::PathInfo {
            path: "/foo/bar/1.txt".to_owned(),
            op: "delete".to_owned(),
            delim: None,
            extra: None,
        },
        z.unwrap()
    );

    // with unknown marker
    match Line::decode("create /foo/bar/1.txt") {
        Err(AppError::SnapshotParsing) => assert!(true),
        Err(_) => assert!(false),
        Ok(_) => assert!(false),
    }
}

#[test]
fn test_line_pathinfo() {
    let rootdir = "/base_dir";

    // Symlink with extra
    let t = "/base_dir/bar/1.txt".to_owned();
    let s = "../foo/1.txt".to_owned();
    let op = FileOp::Symlink { source: Some(s) };
    let fp = FilePath { path: t, op };
    let line = Line::pathinfo(&fp, rootdir);
    assert_eq!(
        Line::PathInfo {
            path: "bar/1.txt".to_owned(),
            op: "symlink".to_owned(),
            delim: Some("->".to_owned()),
            extra: Some("../foo/1.txt".to_owned()),
        },
        line
    );

    // Symlink without extra
    let path = "/base_dir/foo/1.txt".to_owned();
    let op = FileOp::Symlink { source: None };
    let fp = FilePath { path, op };
    let line = Line::pathinfo(&fp, rootdir);
    assert_eq!(
        Line::PathInfo {
            path: "foo/1.txt".to_owned(),
            op: "symlink".to_owned(),
            delim: Some("->".to_owned()),
            extra: None,
        },
        line
    );

    // Keep
    let path = "/base_dir/foo/1.txt".to_owned();
    let op = FileOp::Keep;
    let fp = FilePath { path, op };
    let line = Line::pathinfo(&fp, rootdir);
    assert_eq!(
        Line::PathInfo {
            path: "foo/1.txt".to_owned(),
            op: "keep".to_owned(),
            delim: None,
            extra: None,
        },
        line
    );

    // Delete
    let path = "/base_dir/foo/1.txt".to_owned();
    let op = FileOp::Delete;
    let fp = FilePath { path, op };
    let line = Line::pathinfo(&fp, rootdir);
    assert_eq!(
        Line::PathInfo {
            path: "foo/1.txt".to_owned(),
            op: "delete".to_owned(),
            delim: None,
            extra: None,
        },
        line
    );
}

// Tests for `parse`

#[test]
fn test_parse() {
    let input = vec![
        "#! Root Directory: /foo",
        "#! Generated at: Tue, 12 Dec 2023 16:00:44 +0530",
        "",
        "[937219074347857651]",
        "symlink /foo/bar/1.txt",
        "keep /foo/1.txt",
        "delete /foo/bar/1_copy.txt",
        "",
        "[8183168229739997842]",
        "keep /foo/2.txt",
        "symlink /foo/bar/2.txt",
    ];
    let lines: Vec<String> = input.iter().map(|s| String::from(*s)).collect();
    let snap = parse(&lines).unwrap();
    assert_eq!("/foo".to_owned(), snap.rootdir);

    let d1 = Checksum::parse("937219074347857651").unwrap();
    let g1 = snap.duplicates.iter().find(|g| g.checksum.value() == d1.value());
    match g1 {
        Some(g) => {
            let fps = &g.files;
            assert_eq!(3, fps.len());
            // 1st filepath
            assert_eq!(FileOp::Symlink { source: None }, fps[0].op);
            assert_eq!("/foo/bar/1.txt".to_owned(), fps[0].path);

            // 2nd filepath
            assert_eq!(FileOp::Keep, fps[1].op);
            assert_eq!("/foo/1.txt".to_owned(), fps[1].path);

            // 3rd filepath
            assert_eq!(FileOp::Delete, fps[2].op);
            assert_eq!("/foo/bar/1_copy.txt".to_owned(), fps[2].path);
        }
        None => assert!(false),
    }

    let d2 = Checksum::parse("8183168229739997842").unwrap();
    if let Some(g) = snap.duplicates.iter().find(|g| g.checksum.value() == d2.value()) {
        assert_eq!(2, g.files.len());
    }
}
