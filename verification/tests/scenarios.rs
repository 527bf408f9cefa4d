use raptor::assemble::{setup_raptor, RaptorDataSet};
use raptor::data::{StopTimeRow, TransferRow};
use raptor::{query, raptor, Connection, Time};

const A: usize = 0;
const B: usize = 1;
const C: usize = 2;
const D: usize = 3;

fn clock(hours: u64, minutes: u64) -> u64 {
    hours * 3600 + minutes * 60
}

fn at(hours: u64, minutes: u64) -> Time {
    Time::Finite(clock(hours, minutes))
}

fn halt(trip: &str, stop: &str, time: u64) -> StopTimeRow {
    StopTimeRow {
        trip_id: trip.to_string(),
        stop_id: stop.to_string(),
        arrival_seconds: time,
        departure_seconds: time,
    }
}

fn walk(from: &str, to: &str, seconds: u64) -> TransferRow {
    TransferRow {
        from_stop_id: from.to_string(),
        to_stop_id: to.to_string(),
        min_transfer_time: seconds,
    }
}

fn network(transfers: Vec<TransferRow>, rows: Vec<StopTimeRow>) -> RaptorDataSet {
    let stops = vec!["A".to_string(), "B".to_string(), "C".to_string(), "D".to_string()];
    setup_raptor(stops, transfers, rows).unwrap()
}

fn ride(route: usize, trip_number: usize, boarded_at_stop: usize, exited_at_stop: usize) -> Connection {
    Connection::Connection { route, trip_number, boarded_at_stop, exited_at_stop }
}

/// One route over A, B, C with one trip: 09:00, 09:10, 09:25.
fn one_line() -> Vec<StopTimeRow> {
    vec![
        halt("t0", "A", clock(9, 0)),
        halt("t0", "B", clock(9, 10)),
        halt("t0", "C", clock(9, 25)),
    ]
}

#[test]
fn direct_ride_reaches_both_stops_in_round_one() {
    let data = network(vec![], one_line());
    let departure = Time::Finite(clock(9, 0) - 1);
    let found = query(A, C, &departure, data.routes_data(), data.stops_data());
    assert_eq!(found.connections_by_round.len(), 1);
    let first = &found.connections_by_round[0];
    assert_eq!(first.len(), 2);
    assert_eq!(first.get(&B), Some(&ride(0, 0, A, B)));
    assert_eq!(first.get(&C), Some(&ride(0, 0, A, C)));
    assert_eq!(found.labels_by_round.len(), 2);
    assert_eq!(found.labels_by_round[0][A], departure);
    assert_eq!(found.labels_by_round[0][C], Time::Infinite);
    assert_eq!(found.labels_by_round[1][B], at(9, 10));
    assert_eq!(found.labels_by_round[1][C], at(9, 25));
    assert_eq!(found.labels_by_round[1][D], Time::Infinite);
    let rounds = raptor(A, C, &departure, data.routes_data(), data.stops_data());
    assert_eq!(rounds, found.connections_by_round);
}

#[test]
fn a_trip_that_leaves_at_the_departure_is_missed() {
    let data = network(vec![], one_line());
    let rounds = raptor(A, C, &at(9, 0), data.routes_data(), data.stops_data());
    assert!(rounds.is_empty());
}

#[test]
fn a_transfer_takes_a_second_round() {
    let mut rows = one_line();
    rows.push(halt("t1", "B", clock(9, 15)));
    rows.push(halt("t1", "D", clock(9, 30)));
    let data = network(vec![], rows);
    let departure = Time::Finite(clock(9, 0) - 1);
    let found = query(A, D, &departure, data.routes_data(), data.stops_data());
    assert_eq!(found.connections_by_round.len(), 2);
    let first = &found.connections_by_round[0];
    assert_eq!(first.get(&B), Some(&ride(0, 0, A, B)));
    assert_eq!(first.get(&C), Some(&ride(0, 0, A, C)));
    assert_eq!(first.get(&D), None);
    let second = &found.connections_by_round[1];
    assert_eq!(second.len(), 1);
    assert_eq!(second.get(&D), Some(&ride(1, 0, B, D)));
    assert_eq!(found.labels_by_round[2][D], at(9, 30));
}

#[test]
fn the_earliest_trip_after_the_departure_is_taken() {
    let rows = vec![
        halt("t0", "A", clock(8, 0)),
        halt("t0", "B", clock(8, 10)),
        halt("t1", "A", clock(9, 0)),
        halt("t1", "B", clock(9, 10)),
    ];
    let data = network(vec![], rows);
    let found = query(A, B, &at(8, 30), data.routes_data(), data.stops_data());
    assert_eq!(found.connections_by_round.len(), 1);
    assert_eq!(found.connections_by_round[0].get(&B), Some(&ride(0, 1, A, B)));
    assert_eq!(found.labels_by_round[1][B], at(9, 10));
}

#[test]
fn a_foot_path_is_walked_in_the_round_of_the_ride() {
    let rows = vec![
        StopTimeRow {
            trip_id: "t0".to_string(),
            stop_id: "A".to_string(),
            arrival_seconds: clock(9, 0),
            departure_seconds: clock(9, 0),
        },
        StopTimeRow {
            trip_id: "t0".to_string(),
            stop_id: "B".to_string(),
            arrival_seconds: clock(9, 5),
            departure_seconds: clock(9, 5),
        },
    ];
    let data = network(vec![walk("B", "C", 120)], rows);
    let departure = Time::Finite(clock(9, 0) - 1);
    let found = query(A, C, &departure, data.routes_data(), data.stops_data());
    assert_eq!(found.connections_by_round.len(), 1);
    let first = &found.connections_by_round[0];
    assert_eq!(first.get(&B), Some(&ride(0, 0, A, B)));
    assert_eq!(first.get(&C), Some(&Connection::FootPath { source: B, transfer: 0 }));
    assert_eq!(found.labels_by_round[1][B], at(9, 5));
    assert_eq!(found.labels_by_round[1][C], at(9, 7));
}

#[test]
fn a_stop_walked_to_walks_no_further_in_the_round() {
    let rows = vec![halt("t0", "A", clock(9, 0)), halt("t0", "B", clock(9, 5))];
    let data = network(vec![walk("B", "C", 60), walk("C", "D", 60)], rows);
    let found = query(A, D, &at(8, 0), data.routes_data(), data.stops_data());
    assert_eq!(found.connections_by_round.len(), 1);
    assert_eq!(found.labels_by_round[1][C], at(9, 6));
    assert_eq!(found.labels_by_round[1][D], Time::Infinite);
    assert_eq!(found.connections_by_round[0].get(&D), None);
}

#[test]
fn stops_past_the_target_are_pruned() {
    // A, B, C on one route, B the target: C would get a label of its own, but not one
    // before the arrival at the target.
    let data = network(vec![], one_line());
    let found = query(A, B, &at(8, 0), data.routes_data(), data.stops_data());
    assert_eq!(found.connections_by_round.len(), 1);
    let first = &found.connections_by_round[0];
    assert_eq!(first.get(&B), Some(&ride(0, 0, A, B)));
    assert_eq!(first.get(&C), None);
    assert_eq!(found.labels_by_round[1][C], Time::Infinite);
}

#[test]
fn an_unreachable_target_is_in_no_round() {
    let data = network(vec![], one_line());
    let rounds = raptor(A, D, &at(8, 0), data.routes_data(), data.stops_data());
    assert!(rounds.len() <= 2);
    assert_eq!(rounds.len(), 1);
    assert!(rounds.iter().all(|round| !round.contains_key(&D)));
}

#[test]
fn without_transfers_every_connection_is_a_ride() {
    let mut rows = one_line();
    rows.push(halt("t1", "B", clock(9, 15)));
    rows.push(halt("t1", "D", clock(9, 30)));
    let data = network(vec![], rows);
    assert!(data.stops_data().transfers.is_empty());
    let rounds = raptor(A, D, &at(8, 0), data.routes_data(), data.stops_data());
    assert_eq!(rounds.len(), 2);
    for round in &rounds {
        assert!(!round.is_empty());
        assert!(round.values().all(|connection| matches!(connection, Connection::Connection { .. })));
    }
}

#[test]
fn from_a_stop_to_itself_there_are_no_rounds() {
    let data = network(vec![walk("A", "B", 60)], one_line());
    let departure = at(8, 0);
    let found = query(A, A, &departure, data.routes_data(), data.stops_data());
    assert!(found.connections_by_round.is_empty());
    assert_eq!(found.labels_by_round.len(), 1);
    assert_eq!(found.labels_by_round[0][A], departure);
}

#[test]
fn the_same_query_gives_the_same_answer() {
    let mut rows = one_line();
    rows.push(halt("t1", "B", clock(9, 15)));
    rows.push(halt("t1", "D", clock(9, 30)));
    let data = network(vec![walk("B", "C", 30)], rows);
    let once = query(A, D, &at(8, 0), data.routes_data(), data.stops_data());
    let again = query(A, D, &at(8, 0), data.routes_data(), data.stops_data());
    assert_eq!(once.connections_by_round, again.connections_by_round);
    assert_eq!(once.labels_by_round, again.labels_by_round);
}

#[test]
fn a_later_ride_to_a_stop_beats_the_earlier_one() {
    // Round one reaches C at 09:25 by the slow line; round two reaches it at 09:20 by a
    // change at B.
    let mut rows = one_line();
    rows.push(halt("t1", "B", clock(9, 12)));
    rows.push(halt("t1", "C", clock(9, 20)));
    let data = network(vec![], rows);
    let found = query(A, D, &at(8, 0), data.routes_data(), data.stops_data());
    assert_eq!(found.connections_by_round.len(), 2);
    assert_eq!(found.labels_by_round[1][C], at(9, 25));
    assert_eq!(found.labels_by_round[2][C], at(9, 20));
    assert!(found.labels_by_round[2][C] < found.labels_by_round[1][C]);
    assert_eq!(found.connections_by_round[1].get(&C), Some(&ride(1, 0, B, C)));
}

#[test]
fn a_walk_may_give_a_later_label_than_the_round_before() {
    // Round one rides to C (09:25) and to B (09:10); round two rides from B to D (09:30) and
    // walks from D back to C, which gives C a label later than that of round one.
    let mut rows = one_line();
    rows.push(halt("t1", "B", clock(9, 15)));
    rows.push(halt("t1", "D", clock(9, 30)));
    let data = network(vec![walk("D", "C", 60)], rows);
    let found = query(A, D, &at(8, 0), data.routes_data(), data.stops_data());
    assert_eq!(found.labels_by_round[1][C], at(9, 25));
    assert_eq!(found.labels_by_round[2][C], at(9, 31));
    assert_eq!(
        found.connections_by_round[1].get(&C),
        Some(&Connection::FootPath { source: D, transfer: 0 })
    );
}

#[test]
fn a_trip_without_dwell_is_lost_where_the_stop_was_reached_as_it_arrives() {
    // S = A, P = B, Q = C, T = D. Two lines from A reach B and C; a third runs B, C, D and
    // halts at C without dwell, at 08:30.
    let rows = vec![
        halt("r0", "B", clock(8, 26)),
        halt("r0", "C", clock(8, 30)),
        halt("r0", "D", clock(8, 40)),
        halt("x0", "A", clock(8, 5)),
        halt("x0", "B", clock(8, 10)),
        halt("x1", "A", clock(8, 20)),
        halt("x1", "B", clock(8, 25)),
        halt("y0", "A", clock(8, 5)),
        halt("y0", "C", clock(8, 30)),
    ];
    let data = network(vec![], rows);
    // Setting out at 08:00, round one reaches C at 08:30, and round two cannot stay on the
    // trip through C.
    let early = raptor(A, D, &at(8, 0), data.routes_data(), data.stops_data());
    assert!(early.iter().all(|round| !round.contains_key(&D)));
    // Setting out at 08:06, round one misses the line to C, and round two rides through.
    let late = query(A, D, &at(8, 6), data.routes_data(), data.stops_data());
    assert_eq!(late.connections_by_round.len(), 2);
    assert_eq!(late.labels_by_round[2][D], at(8, 40));
}

#[test]
fn an_infinite_departure_reaches_nothing() {
    let data = network(vec![walk("A", "B", 60)], one_line());
    let found = query(A, C, &Time::Infinite, data.routes_data(), data.stops_data());
    assert!(found.connections_by_round.is_empty());
    assert_eq!(found.labels_by_round[0][A], Time::Infinite);
}

#[test]
fn a_query_for_a_stop_that_is_none_has_no_answer() {
    let data = network(vec![], one_line());
    assert!(data.query(A, 4, &at(8, 0)).is_none());
    assert!(data.query(17, C, &at(8, 0)).is_none());
    let found = data.query(A, C, &at(8, 0)).unwrap();
    assert_eq!(
        found.connections_by_round,
        raptor(A, C, &at(8, 0), data.routes_data(), data.stops_data())
    );
    assert_eq!(found.labels_by_round[1][C], at(9, 25));
}

#[test]
fn a_stop_that_was_reached_stays_reached() {
    let mut rows = one_line();
    rows.push(halt("t1", "B", clock(9, 15)));
    rows.push(halt("t1", "D", clock(9, 30)));
    let data = network(vec![], rows);
    let found = query(A, D, &at(8, 0), data.routes_data(), data.stops_data());
    let mut reached: Vec<usize> = Vec::new();
    for labels in &found.labels_by_round {
        let before = reached.clone();
        for (stop, label) in labels.iter().enumerate() {
            if *label != Time::Infinite && !reached.contains(&stop) {
                reached.push(stop);
            }
        }
        assert!(before.iter().all(|stop| reached.contains(stop)));
    }
    reached.sort();
    assert_eq!(reached, vec![A, B, C, D]);
}

#[test]
fn every_label_is_the_arrival_of_the_ride_that_gave_it() {
    let mut rows = one_line();
    rows.push(halt("t1", "B", clock(9, 15)));
    rows.push(halt("t1", "D", clock(9, 30)));
    let data = network(vec![], rows);
    let routes = data.routes_data();
    let found = query(A, D, &at(8, 0), routes, data.stops_data());
    for (number, round) in found.connections_by_round.iter().enumerate() {
        for (stop, connection) in round {
            let Connection::Connection { route, trip_number, boarded_at_stop, exited_at_stop } =
                *connection
            else {
                panic!("there are no foot-paths");
            };
            assert_eq!(exited_at_stop, *stop);
            let line = &routes.routes[route];
            let from = routes.get_stop_sequence(line, &boarded_at_stop).unwrap();
            let to = routes.get_stop_sequence(line, stop).unwrap();
            assert!(from < to);
            let times = routes.get_stop_times(line);
            let left = times[trip_number * line.number_of_stops + from].departure_time;
            let arrived = times[trip_number * line.number_of_stops + to].arrival_time;
            assert!(found.labels_by_round[number][boarded_at_stop] < left);
            assert_eq!(found.labels_by_round[number + 1][*stop], arrived);
        }
    }
}
