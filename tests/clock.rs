use revl::clock::{date_from_parts, split_date, NSEC_PER_SEC};

#[test]
fn split_date_whole_and_fraction() {
    assert_eq!(split_date(0), (0, 0));
    assert_eq!(split_date(999_999_999), (0, 999_999_999));
    assert_eq!(split_date(1_000_000_000), (1, 0));
    assert_eq!(split_date(12_345_678_901), (12, 345_678_901));
    assert_eq!(split_date(u64::MAX), (18_446_744_073, 709_551_615));
}

#[test]
fn date_from_parts_joins_fields() {
    assert_eq!(date_from_parts(0, 0), 0);
    assert_eq!(date_from_parts(12, 345_678_901), 12_345_678_901);
    assert_eq!(date_from_parts(3, NSEC_PER_SEC - 1), 3_999_999_999);
}

#[test]
fn split_then_join_round_trips() {
    for ns in [1u64, 7_000_000_001, 86_400_123_456_789] {
        let (s, n) = split_date(ns);
        assert_eq!(date_from_parts(s, n), ns);
    }
}
