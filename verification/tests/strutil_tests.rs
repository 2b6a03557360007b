use dupenukem::strutil::{hex_lower, parse_u64, str_eq, str_le, trim, u64_to_string};

#[test]
fn test_trim() {
    assert_eq!("abc", trim("  abc\t "));
    assert_eq!("a b", trim("a b"));
    assert_eq!("", trim("   "));
    assert_eq!("", trim(""));
}

#[test]
fn test_parse_u64() {
    assert_eq!(Some(0), parse_u64("0"));
    assert_eq!(Some(42), parse_u64("42"));
    assert_eq!(Some(42), parse_u64("0042"));
    assert_eq!(Some(u64::MAX), parse_u64("18446744073709551615"));
    assert_eq!(None, parse_u64("18446744073709551616"));
    assert_eq!(None, parse_u64(""));
    assert_eq!(None, parse_u64("12a"));
    assert_eq!(None, parse_u64("-1"));
}

#[test]
fn test_u64_to_string() {
    assert_eq!("0".to_owned(), u64_to_string(0));
    assert_eq!("937219074347857651".to_owned(), u64_to_string(937219074347857651));
    assert_eq!("18446744073709551615".to_owned(), u64_to_string(u64::MAX));
}

#[test]
fn test_str_order_and_eq() {
    assert!(str_le("a.txt", "b.txt"));
    assert!(!str_le("b.txt", "a.txt"));
    assert!(str_le("abc", "abcd"));
    assert!(str_le("same", "same"));
    assert!(str_eq("x", "x"));
    assert!(!str_eq("x", "y"));
}

#[test]
fn test_hex_lower() {
    assert_eq!("00ff10".to_owned(), hex_lower(&[0x00, 0xff, 0x10]));
    assert_eq!("".to_owned(), hex_lower(&[]));
}
