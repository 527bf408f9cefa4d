use raptor::request::{try_format, DateTimeLocal, FormatError};

fn moment(year: u16, month: u8, day: u8, hour: u8, minute: u8, second: u8) -> DateTimeLocal {
    DateTimeLocal { year, month, day, hour, minute, second }
}

#[test]
fn a_date_time_is_written_with_padded_fields() {
    assert_eq!(moment(2024, 3, 9, 7, 5, 0).format(), Ok("2024-03-09T07:05:00".to_string()));
    assert_eq!(moment(987, 12, 31, 23, 59, 59).format(), Ok("0987-12-31T23:59:59".to_string()));
    assert_eq!(moment(0, 1, 1, 0, 0, 0).format(), Ok("0000-01-01T00:00:00".to_string()));
    assert_eq!(moment(9999, 10, 10, 10, 10, 10).format(), Ok("9999-10-10T10:10:10".to_string()));
}

#[test]
fn a_day_outside_the_calendar_is_not_written() {
    assert_eq!(moment(2023, 2, 29, 0, 0, 0).format(), Err(FormatError::InvalidComponent));
    assert_eq!(moment(2024, 2, 29, 0, 0, 0).format(), Ok("2024-02-29T00:00:00".to_string()));
    assert_eq!(moment(1900, 2, 29, 0, 0, 0).format(), Err(FormatError::InvalidComponent));
    assert_eq!(moment(2000, 2, 29, 0, 0, 0).format(), Ok("2000-02-29T00:00:00".to_string()));
    assert_eq!(moment(2024, 4, 31, 0, 0, 0).format(), Err(FormatError::InvalidComponent));
    assert_eq!(moment(2024, 13, 1, 0, 0, 0).format(), Err(FormatError::InvalidComponent));
    assert_eq!(moment(2024, 0, 1, 0, 0, 0).format(), Err(FormatError::InvalidComponent));
    assert_eq!(moment(2024, 1, 0, 0, 0, 0).format(), Err(FormatError::InvalidComponent));
    assert_eq!(moment(2024, 1, 1, 24, 0, 0).format(), Err(FormatError::InvalidComponent));
    assert_eq!(moment(2024, 1, 1, 0, 60, 0).format(), Err(FormatError::InvalidComponent));
    assert_eq!(moment(2024, 1, 1, 0, 0, 60).format(), Err(FormatError::InvalidComponent));
    assert_eq!(moment(10000, 1, 1, 0, 0, 0).format(), Err(FormatError::InvalidComponent));
    assert!(!moment(2023, 2, 29, 0, 0, 0).is_valid());
    assert!(moment(2023, 2, 28, 0, 0, 0).is_valid());
}

#[test]
fn try_format_gives_nothing_where_format_fails() {
    assert_eq!(try_format(&moment(2024, 3, 9, 7, 5, 0)), Some("2024-03-09T07:05:00".to_string()));
    assert_eq!(try_format(&moment(2024, 3, 32, 7, 5, 0)), None);
}

#[test]
fn the_time_of_day_counts_in_seconds() {
    assert_eq!(moment(2024, 3, 9, 12, 0, 0).to_seconds(), 12 * 60 * 60);
    assert_eq!(moment(2024, 3, 9, 23, 59, 59).to_seconds(), 86399);
    assert_eq!(moment(2024, 3, 9, 0, 0, 0).to_seconds(), 0);
    assert_eq!(moment(1, 1, 1, 255, 255, 255).to_seconds(), 255 * 3600 + 255 * 60 + 255);
}
