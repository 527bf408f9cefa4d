use raptor::Time;
use raptor::Time::{Finite, Infinite};

#[test]
fn lib_format_time() {
    // Arrange
    // hours > 24 is valid GTFS time to signify trips that extend to the next day
    let hours = 69;
    let minutes = 4;
    let seconds = 20;

    let hours_in_seconds = hours * 60 * 60;
    let minutes_in_seconds = minutes * 60;

    let time = Time::Finite(hours_in_seconds + minutes_in_seconds + seconds);
    let expected = format!("Time {hours}:{minutes}:{seconds}");

    // Act
    let actual = time.to_text();
    // Assert
    assert_eq!(expected, actual);
}

#[test]
fn raptor_format_time() {
    // Arrange
    // hours > 24 is valid GTFS time to signify trips that extend to the next day
    let hours = 69;
    let minutes = 4;
    let seconds = 20;

    let hours_in_seconds = hours * 60 * 60;
    let minutes_in_seconds = minutes * 60;

    let time = raptor::time::Time::Finite(hours_in_seconds + minutes_in_seconds + seconds);
    let expected = format!("Time {hours}:{minutes}:{seconds}");

    // Act
    let actual = time.to_text();
    // Assert
    assert_eq!(expected, actual);
}

#[test]
fn lib_huh() {
    assert_eq!(Finite(3), Finite(3))
}

#[test]
fn raptor_huh() {
    assert_eq!(raptor::time::Time::Finite(3), raptor::time::Time::Finite(3))
}

#[test]
fn infinite_is_written_by_name() {
    assert_eq!(Infinite.to_text(), "Time Infinite");
    assert_eq!(Finite(0).to_text(), "Time 0:0:0");
}

#[test]
fn infinite_is_later_than_every_finite_time() {
    assert!(Finite(u64::MAX) < Infinite);
    assert!(Finite(0) < Finite(1));
    assert!(Infinite <= Infinite);
    assert!(!(Infinite < Infinite));
    assert!(Infinite > Finite(7));
    assert_eq!(Infinite, Infinite);
    assert_ne!(Infinite, Finite(0));
    assert_eq!(Finite(5).cmp(&Infinite), std::cmp::Ordering::Less);
    assert_eq!(Infinite.cmp(&Infinite), std::cmp::Ordering::Equal);
}

#[test]
fn sums_saturate_at_infinite() {
    assert_eq!(Finite(3) + Finite(4), Finite(7));
    assert_eq!(Finite(3) + Infinite, Infinite);
    assert_eq!(Infinite + Finite(3), Infinite);
    assert_eq!(Infinite + Infinite, Infinite);
    assert_eq!(Finite(u64::MAX) + Finite(1), Infinite);
    assert_eq!(Finite(u64::MAX) + Finite(0), Finite(u64::MAX));
}

#[test]
fn a_second_count_becomes_a_finite_time() {
    assert_eq!(Time::from(12 * 60 * 60), Finite(43200));
}

#[test]
fn min_picks_the_earlier_time() {
    assert_eq!(Finite(3).min(Finite(4)), Finite(3));
    assert_eq!(Infinite.min(Finite(4)), Finite(4));
    assert_eq!(Infinite.min(Infinite), Infinite);
}

#[test]
fn a_clock_pads_minutes_and_seconds() {
    assert_eq!(Finite(69 * 3600 + 4 * 60 + 20).to_clock(), "69:04:20");
    assert_eq!(Finite(0).to_clock(), "0:00:00");
    assert_eq!(Finite(9 * 3600 + 59 * 60 + 9).to_clock(), "9:59:09");
    assert_eq!(Finite(100 * 3600).to_clock(), "100:00:00");
    assert_eq!(Infinite.to_clock(), "Infinite");
}
