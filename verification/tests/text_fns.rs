use flameview::text::{find_byte, parse_u64, rfind_byte, str_eq};

#[test]
fn byte_search() {
    assert_eq!(rfind_byte(b"a b c", b' '), Some(3));
    assert_eq!(find_byte(b"a b c", b' '), Some(1));
    assert_eq!(find_byte(b"abc", b'\n'), None);
    assert_eq!(rfind_byte(b"", b'x'), None);
}

#[test]
fn unsigned_parsing() {
    assert_eq!(parse_u64(b"0"), Some(0));
    assert_eq!(parse_u64(b"+42"), Some(42));
    assert_eq!(parse_u64(b"18446744073709551615"), Some(u64::MAX));
    assert_eq!(parse_u64(b"18446744073709551616"), None);
    assert_eq!(parse_u64(b""), None);
    assert_eq!(parse_u64(b"+"), None);
    assert_eq!(parse_u64(b"-1"), None);
    assert_eq!(parse_u64(b"1x"), None);
    assert_eq!(parse_u64(b"007"), Some(7));
}

#[test]
fn string_helpers() {
    assert!(str_eq("abc", "abc"));
    assert!(!str_eq("abc", "abd"));
    assert!(!str_eq("ab", "abc"));
}
