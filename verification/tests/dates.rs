use constellation::dates::{
    date_text, epoch_secs_from_ymd, parse_ymd_to_epoch, ymd_from_epoch_secs,
};

#[test]
fn ymd_matches_known_utc_dates() {
    assert_eq!(ymd_from_epoch_secs(0), (1970, 1, 1));
    assert_eq!(ymd_from_epoch_secs(86_400), (1970, 1, 2));
    assert_eq!(ymd_from_epoch_secs(1_700_000_000), (2023, 11, 14));
}

#[test]
fn epoch_from_ymd_is_midnight_and_inverts_ymd() {
    assert_eq!(epoch_secs_from_ymd(1970, 1, 1), 0);
    assert_eq!(epoch_secs_from_ymd(1970, 1, 2), 86_400);

    for &(year, month, day) in &[(1970, 1, 1), (1999, 12, 31), (2023, 11, 14), (2024, 2, 29)] {
        let midnight = epoch_secs_from_ymd(year, month, day);

        assert_eq!(ymd_from_epoch_secs(midnight), (year, month as u32, day as u32));
    }
}

#[test]
fn parse_ymd_accepts_dates_and_rejects_hashes() {
    assert_eq!(parse_ymd_to_epoch("1970-01-01"), Some(0));
    assert_eq!(parse_ymd_to_epoch("2023-06-15"), Some(epoch_secs_from_ymd(2023, 6, 15)));
    assert_eq!(parse_ymd_to_epoch("deadbeef"), None);
    assert_eq!(parse_ymd_to_epoch("2023-13-01"), None);
    assert_eq!(parse_ymd_to_epoch("2023-06-15-7"), None);
}

#[test]
fn only_a_date_of_the_calendar_is_read() {
    assert_eq!(parse_ymd_to_epoch("2024-02-29"), Some(epoch_secs_from_ymd(2024, 2, 29)));
    assert_eq!(parse_ymd_to_epoch("0000-02-29"), Some(epoch_secs_from_ymd(0, 2, 29)));

    for text in [
        "2023-02-29", "2023-02-31", "2023-04-31", "2023-06-00", "2023-00-15", "1900-02-29",
        "2023-6-5", "+2023-06-15", "2023-+6-15", "02023-06-15", "-2023-06-15", " 2023-06-15",
    ] {
        assert_eq!(parse_ymd_to_epoch(text), None, "{text}");
    }
}

#[test]
fn dates_before_the_epoch_count_backwards() {
    assert_eq!(ymd_from_epoch_secs(-1), (1969, 12, 31));
    assert_eq!(ymd_from_epoch_secs(-86_400), (1969, 12, 31));
    assert_eq!(ymd_from_epoch_secs(-86_401), (1969, 12, 30));
    assert_eq!(epoch_secs_from_ymd(1969, 12, 31), -86_400);
}

#[test]
fn a_date_is_written_year_month_day() {
    assert_eq!(date_text(0), "1970-01-01");
    assert_eq!(date_text(1_700_000_000), "2023-11-14");
}
