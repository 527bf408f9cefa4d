use std::str::FromStr;

use raptor::timestamp::{IntErrorKind, ParseTimeError, Time, TimeFraction, TimestampPart};

#[test]
fn equals() {
    // Arrange
    let a = Time(1);
    let b = Time(2);
    let c = Time(1);

    // Assert
    assert_ne!(a, b);
    assert_eq!(a, c);
}

#[test]
fn time_from_string() {
    // Arrange
    let a = "12:34:56";
    let expected_a = Time((12 * 60 * 60) + (34 * 60) + 56);
    let b = "69:42:00";
    let expected_b = Time((69 * 60 * 60) + (42 * 60) + 00);

    // Act
    let actual_a = Time::from_str(a).unwrap();
    let actual_b = Time::from_str(b).unwrap();

    // Assert
    assert_eq!(expected_a, actual_a);
    assert_eq!(expected_b, actual_b);
}

#[test]
fn can_not_parse_invalid_time() {
    // Arrange
    let test_values = vec![
        "-69:04:20",
        "6:94:20",
        "69:4:20",
        "694:20:0",
        "69:04:200",
        "lol:00:00",
        "12:lol:00",
        ":12:34",
        "12:34:",
        "12::34",
    ];

    // Act
    let results: Vec<Result<Time, ParseTimeError>> =
        test_values.iter().map(|string| Time::from_str(string)).collect();

    // Assert
    assert!(results.iter().all(Result::is_err));
}

#[test]
fn new_and_total_seconds_keep_the_value() {
    assert_eq!(Time::new(4711).total_seconds(), 4711);
    assert_eq!(Time::new(0), Time(0));
}

#[test]
fn single_digit_hours_are_read() {
    assert_eq!(Time::parse("7:05:09"), Ok(Time(7 * 3600 + 5 * 60 + 9)));
    assert_eq!(Time::parse("0:00:00"), Ok(Time(0)));
    assert_eq!(Time::parse("99:59:59"), Ok(Time(99 * 3600 + 59 * 60 + 59)));
}

#[test]
fn each_error_names_what_failed() {
    assert_eq!(Time::parse(""), Err(ParseTimeError::InvalidLength(0)));
    assert_eq!(Time::parse("-69:04:20"), Err(ParseTimeError::InvalidLength(9)));
    assert_eq!(Time::parse("123:45:67"), Err(ParseTimeError::InvalidLength(9)));
    assert_eq!(
        Time::parse("69:4:200"),
        Err(ParseTimeError::InvalidPartLength(TimeFraction::Minutes, 1))
    );
    assert_eq!(
        Time::parse("694:20:0"),
        Err(ParseTimeError::InvalidPartLength(TimeFraction::Seconds, 1))
    );
    assert_eq!(
        Time::parse("1:22:33:"),
        Err(ParseTimeError::InvalidPartLength(TimeFraction::Seconds, 3))
    );
    assert_eq!(
        Time::parse("1234567"),
        Err(ParseTimeError::InvalidFormat(TimestampPart::Minutes))
    );
    assert_eq!(
        Time::parse("1234:56"),
        Err(ParseTimeError::InvalidFormat(TimestampPart::Seconds))
    );
    assert_eq!(
        Time::parse(":12:34:"),
        Err(ParseTimeError::ParseIntError(TimestampPart::Hours, IntErrorKind::Empty))
    );
    assert_eq!(
        Time::parse("+1:00:00"),
        Err(ParseTimeError::ParseIntError(TimestampPart::Hours, IntErrorKind::InvalidDigit))
    );
    assert_eq!(
        Time::parse("12:+1:00"),
        Err(ParseTimeError::ParseIntError(TimestampPart::Minutes, IntErrorKind::InvalidDigit))
    );
    assert_eq!(
        Time::parse("12:00:x1"),
        Err(ParseTimeError::ParseIntError(TimestampPart::Seconds, IntErrorKind::InvalidDigit))
    );
    assert_eq!(
        Time::parse("6:94:20"),
        Err(ParseTimeError::ValueOutOfRange(TimeFraction::Minutes, 94))
    );
    assert_eq!(
        Time::parse("6:14:60"),
        Err(ParseTimeError::ValueOutOfRange(TimeFraction::Seconds, 60))
    );
}

#[test]
fn bytes_beyond_ascii_are_no_digits() {
    assert_eq!(
        Time::parse("1é:00:00"),
        Err(ParseTimeError::InvalidLength(9))
    );
    assert_eq!(
        Time::parse("é:00:00"),
        Err(ParseTimeError::ParseIntError(TimestampPart::Hours, IntErrorKind::InvalidDigit))
    );
}

#[test]
fn a_time_is_written_without_padding() {
    assert_eq!(Time(69 * 3600 + 4 * 60 + 20).to_text(), "69:4:20");
    assert_eq!(Time(0).to_text(), "0:0:0");
    assert_eq!(Time(86399).to_text(), "23:59:59");
}

#[test]
fn a_time_stamp_reads_back() {
    for seconds in [0, 1, 59, 60, 3599, 3600, 35999, 36000, 86399, 359999] {
        let time = Time::new(seconds);
        assert_eq!(Time::parse(&time.to_stamp()), Ok(time));
    }
    assert_eq!(Time(69 * 3600 + 4 * 60 + 20).to_stamp(), "69:04:20");
    assert_eq!(Time(7 * 3600 + 5).to_stamp(), "7:00:05");
    assert_eq!(Time::parse(&Time(360000).to_stamp()), Err(ParseTimeError::InvalidLength(9)));
}
