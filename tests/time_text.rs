use flight_search::time::{parse_date, parse_timestamp};

const JAN_14: i64 = 1_705_190_400;

#[test]
fn timestamp_reads_plain_text() {
    assert_eq!(parse_timestamp("2024-01-14 08:00:00"), Some(JAN_14 + 8 * 3600));
}

#[test]
fn end_of_day_becomes_next_midnight() {
    assert_eq!(parse_timestamp("2024-01-14 24:00:00"), Some(JAN_14 + 86_400));
    assert_eq!(parse_timestamp("2024-01-15 00:00:00"), parse_timestamp("2024-01-14 24:00:00"));
}

#[test]
fn end_of_day_crosses_month_and_year() {
    assert_eq!(parse_timestamp("2024-01-31 24:00:00"), parse_timestamp("2024-02-01 00:00:00"));
    assert_eq!(parse_timestamp("2023-12-31 24:00:00"), parse_timestamp("2024-01-01 00:00:00"));
}

#[test]
fn unreadable_timestamps_give_none() {
    assert_eq!(parse_timestamp(""), None);
    assert_eq!(parse_timestamp("2024-01-14"), None);
    assert_eq!(parse_timestamp("2024-13-01 24:00:00"), None);
    assert_eq!(parse_timestamp("2024-01-14 25:00:00"), None);
}

#[test]
fn date_reads_as_its_first_second() {
    assert_eq!(parse_date("2024-01-14"), Some(JAN_14));
    assert_eq!(parse_date("1970-01-01"), Some(0));
    assert_eq!(parse_date("not a date"), None);
}
