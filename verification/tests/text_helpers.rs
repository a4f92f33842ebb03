use mzio::text::{digits_only, find_byte, parse_u32, push_range, push_uint};

#[test]
fn find_byte_gives_first_position_or_length() {
    let bytes = b"ab cd ef";
    assert_eq!(find_byte(bytes, 32, 0), 2);
    assert_eq!(find_byte(bytes, 32, 2), 2);
    assert_eq!(find_byte(bytes, 32, 3), 5);
    assert_eq!(find_byte(bytes, 32, 6), 8);
    assert_eq!(find_byte(bytes, 32, 8), 8);
    assert_eq!(find_byte(b"", 10, 0), 0);
}

#[test]
fn digits_only_looks_at_the_given_range() {
    let bytes = b"12a45";
    assert!(digits_only(bytes, 0, 2));
    assert!(!digits_only(bytes, 0, 3));
    assert!(digits_only(bytes, 3, 5));
    assert!(digits_only(bytes, 2, 2));
    assert!(!digits_only(b"/", 0, 1));
    assert!(!digits_only(b":", 0, 1));
    assert!(digits_only(b"0123456789", 0, 10));
}

#[test]
fn push_range_appends_the_range() {
    let mut out = b"x".to_vec();
    push_range(&mut out, b"hello", 1, 4);
    assert_eq!(out, b"xell".to_vec());
    push_range(&mut out, b"hello", 5, 5);
    assert_eq!(out, b"xell".to_vec());
}

#[test]
fn push_uint_writes_decimal_digits() {
    for (number, text) in [(0u32, "0"), (7, "7"), (10, "10"), (909, "909"), (u32::MAX, "4294967295")]
    {
        let mut out = b"=".to_vec();
        push_uint(&mut out, number);
        assert_eq!(String::from_utf8(out).unwrap(), format!("={}", text));
    }
}

#[test]
fn parse_u32_reads_digits_up_to_a_limit() {
    assert_eq!(parse_u32(b"0", u32::MAX), Some(0));
    assert_eq!(parse_u32(b"007", u32::MAX), Some(7));
    assert_eq!(parse_u32(b"4294967295", u32::MAX), Some(u32::MAX));
    assert_eq!(parse_u32(b"4294967296", u32::MAX), None);
    assert_eq!(parse_u32(b"99999999999999999999999999", u32::MAX), None);
    assert_eq!(parse_u32(b"128", 128), Some(128));
    assert_eq!(parse_u32(b"129", 128), None);
    assert_eq!(parse_u32(b"", u32::MAX), None);
    assert_eq!(parse_u32(b"-1", u32::MAX), None);
    assert_eq!(parse_u32(b"1 ", u32::MAX), None);
    assert_eq!(parse_u32(b"0", 0), Some(0));
}

#[test]
fn written_numbers_read_back() {
    for number in [0u32, 1, 9, 10, 99, 100, 65535, 4294967295] {
        let mut out = Vec::new();
        push_uint(&mut out, number);
        assert_eq!(parse_u32(&out, u32::MAX), Some(number));
    }
}
