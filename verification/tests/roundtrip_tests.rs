use dupenukem::fsview::{FsEntry, FsView, PathState};
use dupenukem::hash::Checksum;
use dupenukem::snapshot::textformat::{parse, render};
use dupenukem::snapshot::{FileOp, FilePath, Group, Snapshot};

fn sized(path: &str, size: u64) -> FsEntry {
    FsEntry {
        path: path.to_owned(),
        state: PathState {
            exists: true,
            is_symlink: false,
            is_file: true,
            link_target: None,
            canonical: None,
            checksum: None,
            size,
        },
    }
}

#[test]
fn test_render_lines_exact() {
    let snap = Snapshot {
        rootdir: "/r".to_owned(),
        generated_at: "Tue, 12 Dec 2023 16:00:44 +0530".to_owned(),
        duplicates: vec![Group {
            checksum: Checksum::new(42),
            files: vec![
                FilePath { path: "/r/a/1.txt".to_owned(), op: FileOp::Keep },
                FilePath { path: "/r/b/1.txt".to_owned(), op: FileOp::Symlink { source: None } },
            ],
        }],
    };
    let view = FsView { entries: vec![sized("/r/a/1.txt", 5)] };
    let lines = render(&snap, &view);
    assert_eq!("#! Root Directory: /r", lines[0]);
    assert_eq!("#! Generated at: Tue, 12 Dec 2023 16:00:44 +0530", lines[1]);
    assert_eq!("", lines[2]);
    assert_eq!("[42]", lines[3]);
    assert_eq!("keep a/1.txt", lines[4]);
    assert_eq!("symlink b/1.txt -> ", lines[5]);
    assert_eq!("", lines[6]);
    assert_eq!("# Reference:", lines[7]);
}

#[test]
fn test_render_empty_snapshot() {
    let snap = Snapshot {
        rootdir: "/r".to_owned(),
        generated_at: "Tue, 12 Dec 2023 16:00:44 +0530".to_owned(),
        duplicates: vec![],
    };
    let view = FsView::new();
    let lines = render(&snap, &view);
    assert_eq!(0, lines.len());
}

#[test]
fn test_parse_render_roundtrip() {
    // two groups, sorted by descending keeper size on render
    let snap = Snapshot {
        rootdir: "/r".to_owned(),
        generated_at: "Tue, 12 Dec 2023 16:00:44 +0530".to_owned(),
        duplicates: vec![
            Group {
                checksum: Checksum::new(7),
                files: vec![
                    FilePath { path: "/r/a/1.txt".to_owned(), op: FileOp::Keep },
                    FilePath {
                        path: "/r/b/1.txt".to_owned(),
                        op: FileOp::Symlink { source: Some("../a/1.txt".to_owned()) },
                    },
                    FilePath { path: "/r/c/1.txt".to_owned(), op: FileOp::Delete },
                ],
            },
            Group {
                checksum: Checksum::new(987654321),
                files: vec![
                    FilePath { path: "/r/x.bin".to_owned(), op: FileOp::Keep },
                    FilePath { path: "/r/y.bin".to_owned(), op: FileOp::Symlink { source: None } },
                ],
            },
        ],
    };
    let view = FsView {
        entries: vec![sized("/r/a/1.txt", 5), sized("/r/x.bin", 1000)],
    };
    let lines = render(&snap, &view);
    let parsed = parse(&lines).unwrap();

    assert_eq!(snap.rootdir, parsed.rootdir);
    assert_eq!(snap.generated_at, parsed.generated_at);
    assert_eq!(snap.duplicates.len(), parsed.duplicates.len());
    // group order may differ (the renderer sorts by keeper size):
    // compare group by group through the checksum key
    for g in &snap.duplicates {
        let got = parsed
            .duplicates
            .iter()
            .find(|p| p.checksum.value() == g.checksum.value())
            .expect("group lost in round trip");
        assert_eq!(g.files, got.files);
    }
    // the larger keeper comes first
    assert_eq!(987654321u64, parsed.duplicates[0].checksum.value());
}

#[test]
fn test_parse_rejects_entry_before_group() {
    let lines: Vec<String> = vec![
        "#! Root Directory: /r".to_owned(),
        "#! Generated at: Tue, 12 Dec 2023 16:00:44 +0530".to_owned(),
        "keep a/1.txt".to_owned(),
    ];
    assert!(parse(&lines).is_err());
}

#[test]
fn test_parse_rejects_missing_root() {
    let lines: Vec<String> = vec![
        "#! Generated at: Tue, 12 Dec 2023 16:00:44 +0530".to_owned(),
        "[42]".to_owned(),
    ];
    assert!(parse(&lines).is_err());
}

#[test]
fn test_parse_rejects_bad_timestamp() {
    let lines: Vec<String> = vec![
        "#! Root Directory: /r".to_owned(),
        "#! Generated at: not a timestamp".to_owned(),
    ];
    assert!(parse(&lines).is_err());
}

#[test]
fn test_parse_keeps_first_root() {
    let lines: Vec<String> = vec![
        "#! Root Directory: /r".to_owned(),
        "#! Root Directory: /other".to_owned(),
        "#! Generated at: Tue, 12 Dec 2023 16:00:44 +0530".to_owned(),
        "[42]".to_owned(),
        "keep a/1.txt".to_owned(),
        "keep b/1.txt".to_owned(),
    ];
    let snap = parse(&lines).unwrap();
    assert_eq!("/r", snap.rootdir);
    assert_eq!("/r/a/1.txt", snap.duplicates[0].files[0].path);
}
