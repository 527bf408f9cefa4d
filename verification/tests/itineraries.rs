use std::collections::HashMap;

use raptor::assemble::{setup_raptor, RaptorDataSet};
use raptor::data::{StopTimeRow, TransferRow};
use raptor::{journey_in_round, raptor, reconstruct, Connection, Step, Time};

const A: usize = 0;
const B: usize = 1;
const C: usize = 2;
const D: usize = 3;

fn halt(trip: &str, stop: &str, hours: u64, minutes: u64) -> StopTimeRow {
    StopTimeRow {
        trip_id: trip.to_string(),
        stop_id: stop.to_string(),
        arrival_seconds: hours * 3600 + minutes * 60,
        departure_seconds: hours * 3600 + minutes * 60,
    }
}

fn two_lines(transfers: Vec<TransferRow>) -> RaptorDataSet {
    let stops = vec!["A".to_string(), "B".to_string(), "C".to_string(), "D".to_string()];
    let rows = vec![
        halt("t0", "A", 9, 0),
        halt("t0", "B", 9, 10),
        halt("t0", "C", 9, 25),
        halt("t1", "B", 9, 15),
        halt("t1", "D", 9, 30),
    ];
    setup_raptor(stops, transfers, rows).unwrap()
}

fn ride(route: usize, trip_number: usize, boarded_at_stop: usize, exited_at_stop: usize) -> Step {
    Step::Ride { route, trip_number, boarded_at_stop, exited_at_stop }
}

#[test]
fn a_journey_with_a_change_has_two_rides() {
    let data = two_lines(vec![]);
    let rounds = raptor(A, D, &Time::Finite(8 * 3600), data.routes_data(), data.stops_data());
    assert_eq!(reconstruct(&rounds, A, D), Some(vec![ride(0, 0, A, B), ride(1, 0, B, D)]));
    assert_eq!(reconstruct(&rounds, A, B), Some(vec![ride(0, 0, A, B)]));
    assert_eq!(journey_in_round(&rounds, A, D, 2), Some(vec![ride(0, 0, A, B), ride(1, 0, B, D)]));
    assert_eq!(journey_in_round(&rounds, A, D, 1), None);
    assert_eq!(journey_in_round(&rounds, A, D, 0), None);
    assert_eq!(journey_in_round(&rounds, A, D, 3), None);
}

#[test]
fn a_walk_follows_the_ride_of_its_round() {
    let walk = TransferRow {
        from_stop_id: "C".to_string(),
        to_stop_id: "D".to_string(),
        min_transfer_time: 60,
    };
    let data = two_lines(vec![walk]);
    let rounds = raptor(A, D, &Time::Finite(8 * 3600), data.routes_data(), data.stops_data());
    // The walk reaches D in round one; it does not count as the best arrival of a ride,
    // so round two still rides to D.
    assert_eq!(rounds.len(), 2);
    assert_eq!(
        journey_in_round(&rounds, A, D, 1),
        Some(vec![ride(0, 0, A, C), Step::Walk { from_stop: C, to_stop: D, transfer: 0 }])
    );
    assert_eq!(reconstruct(&rounds, A, D), Some(vec![ride(0, 0, A, B), ride(1, 0, B, D)]));
}

#[test]
fn there_is_no_journey_to_a_stop_that_no_round_reached() {
    let data = two_lines(vec![]);
    let rounds = raptor(B, A, &Time::Finite(8 * 3600), data.routes_data(), data.stops_data());
    assert_eq!(reconstruct(&rounds, B, A), None);
    assert_eq!(reconstruct(&Vec::new(), B, A), None);
}

#[test]
fn the_journey_to_the_source_has_no_legs() {
    let data = two_lines(vec![]);
    let rounds = raptor(A, A, &Time::Finite(8 * 3600), data.routes_data(), data.stops_data());
    assert_eq!(reconstruct(&rounds, A, A), Some(vec![]));
}

#[test]
fn connections_that_lead_in_a_circle_give_no_journey() {
    let mut round = HashMap::new();
    round.insert(C, Connection::FootPath { source: D, transfer: 0 });
    round.insert(D, Connection::FootPath { source: C, transfer: 0 });
    assert_eq!(reconstruct(&vec![round], A, D), None);
}

#[test]
fn a_ride_from_a_stop_without_a_connection_gives_no_journey() {
    let mut first = HashMap::new();
    first.insert(C, Connection::Connection {
        route: 0,
        trip_number: 0,
        boarded_at_stop: A,
        exited_at_stop: C,
    });
    let mut second = HashMap::new();
    second.insert(D, Connection::Connection {
        route: 1,
        trip_number: 0,
        boarded_at_stop: B,
        exited_at_stop: D,
    });
    assert_eq!(reconstruct(&vec![first, second], A, D), None);
}

#[test]
fn a_walk_from_a_stop_without_a_connection_begins_the_journey() {
    let mut round = HashMap::new();
    round.insert(D, Connection::FootPath { source: C, transfer: 2 });
    assert_eq!(
        reconstruct(&vec![round], A, D),
        Some(vec![Step::Walk { from_stop: C, to_stop: D, transfer: 2 }])
    );
}

#[test]
fn the_legs_of_a_journey_follow_each_other() {
    let data = two_lines(vec![]);
    let rounds = raptor(A, D, &Time::Finite(8 * 3600), data.routes_data(), data.stops_data());
    let legs = reconstruct(&rounds, A, D).unwrap();
    let mut at = A;
    for leg in &legs {
        match *leg {
            Step::Ride { boarded_at_stop, exited_at_stop, .. } => {
                assert_eq!(boarded_at_stop, at);
                at = exited_at_stop;
            }
            Step::Walk { from_stop, to_stop, .. } => {
                assert_eq!(from_stop, at);
                at = to_stop;
            }
        }
    }
    assert_eq!(at, D);
}
