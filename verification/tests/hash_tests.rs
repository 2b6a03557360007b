use dupenukem::error::AppError;
use dupenukem::hash::{sha256, xxh3_64, Checksum};

#[test]
fn test_sha256_known_vectors() {
    assert_eq!(
        "2cf24dba5fb0a30e26e83b2ac5b9e29e1b161e5c1fa7425e73043362938b9824".to_owned(),
        sha256(b"hello")
    );
    assert_eq!(
        "e3b0c44298fc1c149afbf4c8996fb92427ae41e4649b934ca495991b7852b855".to_owned(),
        sha256(b"")
    );
}

#[test]
fn test_xxh3_distinguishes_contents() {
    assert_eq!(xxh3_64(b"hello"), xxh3_64(b"hello"));
    assert_ne!(xxh3_64(b"a"), xxh3_64(b"b"));
    assert_ne!(xxh3_64(b"hello"), xxh3_64(b"world"));
}

#[test]
fn test_checksum_parse_render() {
    let c = Checksum::parse("937219074347857651").unwrap();
    assert_eq!(937219074347857651u64, c.value());
    assert_eq!("937219074347857651".to_owned(), c.render());

    assert_eq!(0u64, Checksum::parse("0").unwrap().value());
    assert_eq!("18446744073709551615".to_owned(), Checksum::new(u64::MAX).render());

    match Checksum::parse("not-a-number") {
        Err(AppError::ChecksumParsing) => assert!(true),
        _ => assert!(false),
    }
    match Checksum::parse("") {
        Err(AppError::ChecksumParsing) => assert!(true),
        _ => assert!(false),
    }
    // one past the largest 64-bit value
    match Checksum::parse("18446744073709551616") {
        Err(AppError::ChecksumParsing) => assert!(true),
        _ => assert!(false),
    }
    match Checksum::parse("+5") {
        Err(AppError::ChecksumParsing) => assert!(true),
        _ => assert!(false),
    }
}

#[test]
fn test_checksum_of_bytes() {
    let c = Checksum::of_bytes(b"hello");
    assert_eq!(xxh3_64(b"hello"), c.value());
}
