use recall::calendar::iso_timestamp;
use recall::quest::days_to_date;

#[test]
fn test_iso_timestamp_values() {
    assert_eq!(iso_timestamp(0), "1970-01-01T00:00:00");
    assert_eq!(iso_timestamp(1_704_067_199), "2023-12-31T23:59:59");
    assert_eq!(iso_timestamp(951_782_400 + 3_723), "2000-02-29T01:02:03");
}

#[test]
fn test_days_to_date_round_trip_edges() {
    assert_eq!(days_to_date(-1), (1969, 12, 31));
    assert_eq!(days_to_date(-719_468), (0, 3, 1));
    assert_eq!(days_to_date(59), (1970, 3, 1));
    assert_eq!(days_to_date(11_016 + 366), (2001, 3, 1));
    // 2100 is no leap year: 2100-02-28 is followed by 2100-03-01.
    let (y, m, d) = days_to_date(47_540);
    let (y2, m2, d2) = days_to_date(47_541);
    assert_eq!((y, m, d), (2100, 2, 28));
    assert_eq!((y2, m2, d2), (2100, 3, 1));
}
