use recall::quest::{chrono_now, days_to_date, extract_keyword};

#[test]
fn test_extract_keyword_basic() {
    // "ZFS" (3), "Cache" (5), "Tuning" (6), "Guide" (noise)
    assert_eq!(extract_keyword("ZFS Cache Tuning Guide"), "Tuning");
}

#[test]
fn test_extract_keyword_all_noise() {
    // Every token is either a noise word or < 3 chars → empty
    assert_eq!(extract_keyword("The Guide To How"), "");
}

#[test]
fn test_extract_keyword_empty() {
    assert_eq!(extract_keyword(""), "");
}

#[test]
fn test_extract_keyword_with_symbols() {
    // Splitting on non-alphanumeric characters gives "OpenWrt" (7), "DNS" (3),
    // "Configuration" (13), "v2" (2): the longest valid piece wins.
    assert_eq!(
        extract_keyword("OpenWrt - DNS Configuration (v2)"),
        "Configuration"
    );
}

#[test]
fn test_extract_keyword_chinese() {
    // CJK characters are alphanumeric, so the whole run stays one piece.
    let result = extract_keyword("ZFS缓存调优指南");
    assert!(!result.is_empty(), "expected a non-empty keyword");
}

#[test]
fn test_extract_keyword_single_long_word() {
    assert_eq!(extract_keyword("stackoverflow"), "stackoverflow");
}

#[test]
fn test_days_to_date_unix_epoch() {
    assert_eq!(days_to_date(0), (1970, 1, 1));
}

#[test]
fn test_days_to_date_known_date() {
    // 2024-12-03 is day 20060 since 1970-01-01
    assert_eq!(days_to_date(20060), (2024, 12, 3));
}

#[test]
fn test_days_to_date_leap_year() {
    // 2000-02-29 is day 11016 since epoch
    assert_eq!(days_to_date(11016), (2000, 2, 29));
}

#[test]
fn test_days_to_date_y2k() {
    // 2000-01-01 is day 10957 since epoch
    assert_eq!(days_to_date(10957), (2000, 1, 1));
}

#[test]
fn test_chrono_now_is_recent() {
    let now = chrono_now();
    let year: i32 = now[..4].parse().expect("year should be numeric");
    assert!(
        year >= 2025 && year <= 2030,
        "expected year in 2025..=2030, got {}",
        year
    );
}

#[test]
fn test_chrono_now_format() {
    let now = chrono_now();
    // YYYY-MM-DDTHH:MM:SS
    let b = now.as_bytes();
    assert_eq!(b.len(), 19, "chrono_now() returned '{}'", now);
    for (i, c) in b.iter().enumerate() {
        match i {
            4 | 7 => assert_eq!(*c, b'-'),
            10 => assert_eq!(*c, b'T'),
            13 | 16 => assert_eq!(*c, b':'),
            _ => assert!(c.is_ascii_digit(), "chrono_now() returned '{}'", now),
        }
    }
}
