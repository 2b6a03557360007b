use dupenukem::fileutil::{
    normalize_path, normalize_symlink_src_path, parent_of, path_join, within_rootdir,
};

#[test]
fn test_normalize_path() {
    let base_dir = "/root/mydir";

    // must_be_relative is true but path is absolute
    let p = "/root/mydir/foo/1.txt";
    let res = normalize_path(p, true, base_dir);
    match res {
        Ok(rp) => assert_eq!("foo/1.txt".to_owned(), rp),
        Err(_) => assert!(false),
    }

    // must be relative is true, path is absolute but not under
    // the base_dir (unexpected case)
    let p = "/someother/mydir/foo/1.txt";
    let res = normalize_path(p, true, base_dir);
    match res {
        Ok(_) => assert!(false),
        Err(_) => assert!(true),
    }

    // must_be_relative is false but path is relative
    let p = "foo/1.txt";
    let res = normalize_path(p, false, base_dir);
    match res {
        Ok(rp) => assert_eq!("/root/mydir/foo/1.txt".to_owned(), rp),
        Err(_) => assert!(false),
    }

    let p = "../foo/1.txt";
    let res = normalize_path(p, false, base_dir);
    match res {
        Ok(rp) => assert_eq!("/root/mydir/../foo/1.txt".to_owned(), rp),
        Err(_) => assert!(false),
    }

    // must_be_relative is true and path is already relative
    let p = "foo/1.txt";
    let res = normalize_path(p, true, base_dir);
    match res {
        Ok(rp) => assert_eq!(p.to_owned(), rp),
        Err(_) => assert!(false),
    }

    // must be relative is false and path is already absolute
    let p = "/root/mydir/foo/1.txt";
    let res = normalize_path(p, false, base_dir);
    match res {
        Ok(rp) => assert_eq!(p.to_owned(), rp),
        Err(_) => assert!(false),
    }

    // must be relative is false, path is already absolute but it
    // isn't located under `base_dir`.
    let p = "/someother/mydir/foo/1.txt";
    let res = normalize_path(p, false, base_dir);
    match res {
        Ok(_) => assert!(false),
        Err(_) => assert!(true),
    }
}

#[test]
fn test_within_rootdir() {
    assert!(within_rootdir("/r", "/r/a/1.txt"));
    assert!(within_rootdir("/r/a", "/r/a/1.txt"));
    assert!(within_rootdir("/", "/r/a/1.txt"));
    assert!(!within_rootdir("/r/b", "/r/a/1.txt"));
    assert!(!within_rootdir("/ra", "/r/a/1.txt"));
    assert!(!within_rootdir("/r", "relative/path"));
}

#[test]
fn test_parent_and_join() {
    assert_eq!(Some("/private/tmp/bar".to_owned()), parent_of("/private/tmp/bar/current"));
    assert_eq!(Some("/".to_owned()), parent_of("/a"));
    assert_eq!(None, parent_of("/"));
    assert_eq!(None, parent_of(""));
    assert_eq!("/r/b/../a/1.txt".to_owned(), path_join("/r/b", "../a/1.txt"));
    assert_eq!("/a".to_owned(), path_join("/", "a"));
}

#[test]
fn test_normalize_symlink_src_path() {
    // explicit sources come back exactly as written
    let r = normalize_symlink_src_path("/r/b/1.txt", "../a/1.txt", true);
    assert_eq!("../a/1.txt".to_owned(), r.unwrap());

    // implicit sources become relative to the target's parent
    let r = normalize_symlink_src_path("/private/tmp/bar/current", "/private/tmp/foo/1.txt", false);
    assert_eq!("../foo/1.txt".to_owned(), r.unwrap());

    let r = normalize_symlink_src_path("/r/b/1.txt", "/r/a/1.txt", false);
    assert_eq!("../a/1.txt".to_owned(), r.unwrap());

    let r = normalize_symlink_src_path("/r/b/1.txt", "/r/b/2.txt", false);
    assert_eq!("2.txt".to_owned(), r.unwrap());

    // an implicit source must be absolute
    let r = normalize_symlink_src_path("/r/b/1.txt", "rel/src.txt", false);
    assert!(r.is_err());

    // a bare root has no parent
    let r = normalize_symlink_src_path("/", "/r/a/1.txt", false);
    assert!(r.is_err());
}
