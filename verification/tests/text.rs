use sqlite_rust::text::bytes_eq;
use sqlite_rust::text::decimal;
use sqlite_rust::text::parse_u32;
use sqlite_rust::text::scan;
use sqlite_rust::text::starts_with;
use sqlite_rust::text::Stop;

#[test]
fn parse_u32_reads_decimal_numbers() {
    assert_eq!(parse_u32(b"0"), Some(0));
    assert_eq!(parse_u32(b"7"), Some(7));
    assert_eq!(parse_u32(b"42"), Some(42));
    assert_eq!(parse_u32(b"+42"), Some(42));
    assert_eq!(parse_u32(b"007"), Some(7));
    assert_eq!(parse_u32(b"4294967295"), Some(u32::MAX));
    assert_eq!(parse_u32(b"00000000000000000004294967295"), Some(u32::MAX));
}

#[test]
fn parse_u32_rejects_what_is_no_number() {
    assert_eq!(parse_u32(b""), None);
    assert_eq!(parse_u32(b"+"), None);
    assert_eq!(parse_u32(b"-"), None);
    assert_eq!(parse_u32(b"-1"), None);
    assert_eq!(parse_u32(b"-0"), None);
    assert_eq!(parse_u32(b"++1"), None);
    assert_eq!(parse_u32(b"1+"), None);
    assert_eq!(parse_u32(b" 1"), None);
    assert_eq!(parse_u32(b"1 "), None);
    assert_eq!(parse_u32(b"12a"), None);
    assert_eq!(parse_u32(b"a12"), None);
    assert_eq!(parse_u32(b"1_000"), None);
    assert_eq!(parse_u32(b"0x10"), None);
    assert_eq!(parse_u32(b"1.5"), None);
    assert_eq!(parse_u32("١٢".as_bytes()), None);
}

#[test]
fn parse_u32_rejects_numbers_that_do_not_fit() {
    assert_eq!(parse_u32(b"4294967296"), None);
    assert_eq!(parse_u32(b"4294967300"), None);
    assert_eq!(parse_u32(b"42949672950"), None);
    assert_eq!(parse_u32(b"99999999999999999999999999"), None);
    assert_eq!(parse_u32(b"+4294967296"), None);
}

#[test]
fn parse_u32_agrees_with_the_standard_library() {
    let samples = [
        "", "0", "1", "+1", "-1", "+", "-", "10", "4294967295", "4294967296", "0004294967295",
        "12 ", " 12", "1e3", "٣", "+0", "+-1", "429496729", "42949672955", "９",
    ];
    for s in samples {
        assert_eq!(parse_u32(s.as_bytes()), s.parse::<u32>().ok(), "{:?}", s);
    }
}

#[test]
fn bytes_eq_compares_length_and_content() {
    assert!(bytes_eq(b"", b""));
    assert!(bytes_eq(b"abc", b"abc"));
    assert!(!bytes_eq(b"abc", b"abd"));
    assert!(!bytes_eq(b"abc", b"ab"));
    assert!(!bytes_eq(b"ab", b"abc"));
    assert!(!bytes_eq(b"", b"a"));
}

#[test]
fn starts_with_looks_at_the_first_bytes() {
    assert!(starts_with(b"insert 1", b"insert"));
    assert!(starts_with(b"insert", b"insert"));
    assert!(starts_with(b"anything", b""));
    assert!(starts_with(b"", b""));
    assert!(!starts_with(b"inser", b"insert"));
    assert!(!starts_with(b"Insert 1", b"insert"));
    assert!(!starts_with(b" insert", b"insert"));
    assert!(!starts_with(b"", b"i"));
}

#[test]
fn scan_finds_the_next_stop() {
    let s = b"ab cd\te \n";
    assert_eq!(scan(s, 0, Stop::Space), 2);
    assert_eq!(scan(s, 2, Stop::Space), 2);
    assert_eq!(scan(s, 3, Stop::Space), 7);
    assert_eq!(scan(s, 3, Stop::Blank), 5);
    assert_eq!(scan(s, 5, Stop::NonBlank), 6);
    assert_eq!(scan(s, 7, Stop::NonBlank), 9);
    assert_eq!(scan(s, 8, Stop::Space), 9);
    assert_eq!(scan(s, 9, Stop::Blank), 9);
    assert_eq!(scan(b"", 0, Stop::Blank), 0);
    assert_eq!(scan(b"a\rb", 0, Stop::Blank), 1);
    assert_eq!(scan(b"a\rb", 0, Stop::Space), 3);
}

#[test]
fn stops_at_tells_the_kinds_of_bytes_apart() {
    for b in [b' ', b'\t', b'\r', b'\n'] {
        assert!(Stop::Blank.stops_at(b));
        assert!(!Stop::NonBlank.stops_at(b));
        assert_eq!(Stop::Space.stops_at(b), b == b' ');
    }
    for b in [b'a', 0u8, 0x0b, 0x0c, 0xa0, 0xff] {
        assert!(!Stop::Blank.stops_at(b));
        assert!(Stop::NonBlank.stops_at(b));
        assert!(!Stop::Space.stops_at(b));
    }
}

#[test]
fn decimal_writes_numbers_without_leading_zeros() {
    assert_eq!(decimal(0), "0");
    assert_eq!(decimal(7), "7");
    assert_eq!(decimal(10), "10");
    assert_eq!(decimal(42), "42");
    assert_eq!(decimal(1000), "1000");
    assert_eq!(decimal(4294967295), "4294967295");
}

#[test]
fn decimal_agrees_with_the_standard_library() {
    let mut n: u32 = 1;
    for _ in 0..200 {
        assert_eq!(decimal(n), n.to_string());
        assert_eq!(decimal(n - 1), (n - 1).to_string());
        n = n.wrapping_mul(2654435761).wrapping_add(12345);
    }
    for n in [9u32, 10, 99, 100, 999_999_999, 1_000_000_000, u32::MAX - 1, u32::MAX] {
        assert_eq!(decimal(n), n.to_string());
    }
}

#[test]
fn parse_u32_reads_what_decimal_writes() {
    for n in [0u32, 1, 9, 10, 11, 255, 256, 65535, 65536, 123456789, u32::MAX] {
        assert_eq!(parse_u32(decimal(n).as_bytes()), Some(n));
    }
}
