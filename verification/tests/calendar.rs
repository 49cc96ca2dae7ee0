use doc_checker::calendar::{iso_date, iso_date_today};

#[test]
fn test_iso_date_today_has_expected_shape() {
    let date = iso_date_today();
    assert_eq!(date.len(), 10);
    let bytes = date.as_bytes();
    assert_eq!(bytes[4], b'-');
    assert_eq!(bytes[7], b'-');
    assert!(bytes
        .iter()
        .enumerate()
        .all(|(i, b)| { matches!(i, 4 | 7) || b.is_ascii_digit() }));
}

#[test]
fn today_is_after_this_was_written() {
    assert!(iso_date_today().as_str() > "2024-01-01");
}

#[test]
fn known_dates() {
    assert_eq!(iso_date(0), "1970-01-01");
    assert_eq!(iso_date(86_399), "1970-01-01");
    assert_eq!(iso_date(86_400), "1970-01-02");
    assert_eq!(iso_date(951_782_400), "2000-02-29");
    assert_eq!(iso_date(951_868_800), "2000-03-01");
    assert_eq!(iso_date(1_709_164_800), "2024-02-29");
    assert_eq!(iso_date(4_107_542_400), "2100-03-01");
    assert_eq!(iso_date(4_107_456_000), "2100-02-28");
    assert_eq!(iso_date(-1), "1969-12-31");
}

#[test]
fn later_moments_have_later_dates() {
    let moments = [
        -62_167_219_200,
        -62_135_596_800,
        -1,
        0,
        86_399,
        86_400,
        820_454_399,
        820_454_400,
        951_782_400,
        1_709_164_800,
        4_107_542_400,
        253_402_300_799,
    ];
    for pair in moments.windows(2) {
        assert!(iso_date(pair[0]) <= iso_date(pair[1]));
        assert_eq!(iso_date(pair[1]).len(), 10);
    }
    assert_eq!(iso_date(-62_167_219_200), "0000-01-01");
    assert_eq!(iso_date(820_454_399), "1995-12-31");
    assert_eq!(iso_date(820_454_400), "1996-01-01");
    assert_eq!(iso_date(253_402_300_799), "9999-12-31");
}
