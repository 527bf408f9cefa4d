use std::collections::HashMap;

use raptor::report::{query_parameters, rides_in_round, stops_mentioned, RideRow};
use raptor::Connection;

fn ride(route: usize, trip_number: usize, boarded_at_stop: usize, exited_at_stop: usize) -> Connection {
    Connection::Connection { route, trip_number, boarded_at_stop, exited_at_stop }
}

fn rounds() -> Vec<HashMap<usize, Connection>> {
    let mut first = HashMap::new();
    first.insert(4, ride(0, 1, 0, 4));
    first.insert(2, ride(0, 1, 0, 2));
    first.insert(5, Connection::FootPath { source: 4, transfer: 0 });
    let mut second = HashMap::new();
    second.insert(7, ride(3, 0, 2, 7));
    vec![first, second]
}

#[test]
fn the_rides_of_a_round_come_in_the_order_of_their_stops() {
    let rounds = rounds();
    assert_eq!(
        rides_in_round(&rounds[0], 8),
        vec![
            RideRow { stop: 2, route: 0, trip_number: 1, boarded_at_stop: 0, exited_at_stop: 2 },
            RideRow { stop: 4, route: 0, trip_number: 1, boarded_at_stop: 0, exited_at_stop: 4 },
        ]
    );
    assert_eq!(
        rides_in_round(&rounds[1], 8),
        vec![RideRow { stop: 7, route: 3, trip_number: 0, boarded_at_stop: 2, exited_at_stop: 7 }]
    );
    assert_eq!(rides_in_round(&rounds[1], 7), vec![]);
    assert_eq!(rides_in_round(&HashMap::new(), 8), vec![]);
}

#[test]
fn every_stop_that_is_mentioned_is_listed_once() {
    assert_eq!(stops_mentioned(&rounds(), 8), vec![0, 2, 4, 5, 7]);
    assert_eq!(stops_mentioned(&rounds(), 5), vec![0, 2, 4]);
    assert_eq!(stops_mentioned(&rounds(), 0), Vec::<usize>::new());
    assert_eq!(stops_mentioned(&Vec::new(), 8), Vec::<usize>::new());
}

#[test]
fn placeholders_are_numbered_from_one() {
    assert_eq!(query_parameters(0), "");
    assert_eq!(query_parameters(1), "?1");
    assert_eq!(query_parameters(3), "?1, ?2, ?3");
    assert_eq!(query_parameters(11), "?1, ?2, ?3, ?4, ?5, ?6, ?7, ?8, ?9, ?10, ?11");
}
