use scheddoc::render::{friendly_date, friendly_duration, friendly_time, id, join};
use scheddoc::schedule::Timestamp;

fn ts(year: i32, month: u8, day: u8, hour: u8, minute: u8) -> Timestamp {
    Timestamp {
        year,
        month,
        day,
        hour,
        minute,
        second: 0,
        offset_seconds: 7200,
    }
}

#[test]
fn duration_rounds_down_to_minutes() {
    assert_eq!(friendly_duration(3000), "00:50");
    assert_eq!(friendly_duration(0), "00:00");
    assert_eq!(friendly_duration(59), "00:00");
    assert_eq!(friendly_duration(3600), "01:00");
    assert_eq!(friendly_duration(86340), "23:59");
}

#[test]
fn date_is_friendly() {
    assert_eq!(friendly_date(&ts(2022, 7, 22, 17, 0)), "Friday, July 22");
    assert_eq!(friendly_date(&ts(2022, 1, 1, 0, 0)), "Saturday, January 1");
    assert_eq!(friendly_date(&ts(2000, 2, 29, 12, 30)), "Tuesday, February 29");
    assert_eq!(friendly_date(&ts(1999, 12, 31, 23, 59)), "Friday, December 31");
}

#[test]
fn time_is_24_hour() {
    assert_eq!(friendly_time(&ts(2022, 7, 22, 17, 0)), "17:00");
    assert_eq!(friendly_time(&ts(2022, 7, 22, 0, 5)), "00:05");
    assert_eq!(friendly_time(&ts(2022, 7, 22, 9, 59)), "09:59");
}

#[test]
fn anchor_id_keeps_ascii_alphanumerics_only() {
    assert_eq!(id("Abacus  \u{1f9ee}"), "Abacus");
    assert_eq!(id("Day 2 / Room B"), "Day2RoomB");
    assert_eq!(id(""), "");
    assert_eq!(id("___"), "");
}

#[test]
fn join_uses_separator_between_parts() {
    assert_eq!(join(&vec![], ", "), "");
    assert_eq!(join(&vec!["Jane Doe".to_string()], ", "), "Jane Doe");
    assert_eq!(
        join(&vec!["a".to_string(), "b".to_string(), "c".to_string()], ", "),
        "a, b, c"
    );
}
