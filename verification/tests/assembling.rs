use raptor::assemble::setup_raptor;
use raptor::data::{
    get_routes, get_stops, stop_time_row, AssemblyError, StopIndex, StopTimeRow, TransferRow,
};
use raptor::timestamp::{ParseTimeError, TimeFraction};
use raptor::{assemble_raptor_data, Time, Transfer};

fn ids(names: &[&str]) -> Vec<String> {
    names.iter().map(|name| name.to_string()).collect()
}

fn row(trip: &str, stop: &str, arrival: u64, departure: u64) -> StopTimeRow {
    StopTimeRow {
        trip_id: trip.to_string(),
        stop_id: stop.to_string(),
        arrival_seconds: arrival,
        departure_seconds: departure,
    }
}

fn walk(from: &str, to: &str, seconds: u64) -> TransferRow {
    TransferRow {
        from_stop_id: from.to_string(),
        to_stop_id: to.to_string(),
        min_transfer_time: seconds,
    }
}

fn index(names: &[&str]) -> StopIndex {
    StopIndex { ids: ids(names) }
}

#[test]
fn stops_get_their_index_where_they_occur_first() {
    let found = get_stops(ids(&["x", "y", "x", "z", "y"]), vec![]).unwrap();
    assert_eq!(found.index_by_stop_id.ids, ids(&["x", "y", "z"]));
    assert_eq!(found.stops.len(), 3);
    assert_eq!(found.stops[2].id, "z");
    assert_eq!(found.index_by_stop_id.get(&"y".to_string()), Some(1));
    assert_eq!(found.index_by_stop_id.get(&"w".to_string()), None);
    assert_eq!(found.index_by_stop_id.len(), 3);
    assert!(found.transfers.is_empty());
}

#[test]
fn transfers_are_grouped_by_the_stop_they_leave() {
    let transfers = vec![walk("z", "x", 30), walk("x", "y", 60), walk("z", "y", 90), walk("x", "z", 120)];
    let found = get_stops(ids(&["x", "y", "z"]), transfers).unwrap();
    let targets: Vec<(usize, Time)> =
        found.transfers.iter().map(|transfer| (transfer.target, transfer.time)).collect();
    assert_eq!(
        targets,
        vec![
            (1, Time::Finite(60)),
            (2, Time::Finite(120)),
            (0, Time::Finite(30)),
            (1, Time::Finite(90))
        ]
    );
    let blocks: Vec<(usize, usize)> = found
        .stops
        .iter()
        .map(|stop| (stop.transfers_index_start, stop.transfers_count))
        .collect();
    assert_eq!(blocks, vec![(0, 2), (2, 0), (2, 2)]);
}

#[test]
fn a_transfer_to_an_unknown_stop_is_an_error() {
    let from = get_stops(ids(&["x", "y"]), vec![walk("x", "y", 1), walk("q", "r", 1)]);
    assert!(matches!(from, Err(AssemblyError::UnknownStopId(id)) if id == "q"));
    let to = get_stops(ids(&["x", "y"]), vec![walk("x", "r", 1)]);
    assert!(matches!(to, Err(AssemblyError::UnknownStopId(id)) if id == "r"));
}

#[test]
fn trips_with_one_stop_sequence_make_one_route() {
    let rows = vec![
        row("a", "x", 100, 100),
        row("a", "y", 200, 200),
        row("b", "y", 50, 50),
        row("b", "x", 60, 60),
        row("c", "x", 10, 10),
        row("c", "y", 20, 20),
    ];
    let found = get_routes(rows, &index(&["x", "y"])).unwrap();
    assert_eq!(found.trips_count, 3);
    assert_eq!(found.stop_times_count, 6);
    assert_eq!(found.route_stops_count, 6);
    assert_eq!(found.trips_by_stops.len(), 2);
    assert_eq!(found.trips_by_stops[0].stops, vec![0, 1]);
    let first: Vec<&str> = found.trips_by_stops[0].trips.iter().map(|trip| trip.id.as_str()).collect();
    assert_eq!(first, vec!["c", "a"]);
    assert_eq!(found.trips_by_stops[1].stops, vec![1, 0]);
    assert_eq!(found.trips_by_stops[1].trips[0].id, "b");
    assert_eq!(found.trips_by_stops[0].trips[0].stop_times[1].arrival_time, Time::Finite(20));
}

#[test]
fn a_trip_is_filed_before_the_trips_that_leave_with_it() {
    let rows = vec![
        row("a", "x", 100, 100),
        row("a", "y", 200, 200),
        row("b", "x", 100, 100),
        row("b", "y", 150, 150),
        row("c", "x", 90, 90),
        row("c", "y", 95, 95),
        row("d", "x", 100, 100),
        row("d", "y", 300, 300),
    ];
    let found = get_routes(rows, &index(&["x", "y"])).unwrap();
    let order: Vec<&str> = found.trips_by_stops[0].trips.iter().map(|trip| trip.id.as_str()).collect();
    assert_eq!(order, vec!["c", "d", "b", "a"]);
    assert!(found.trips_by_stops[0].trips[1] == found.trips_by_stops[0].trips[2]);
    assert!(found.trips_by_stops[0].trips[0] < found.trips_by_stops[0].trips[1]);
}

#[test]
fn arrival_and_departure_keep_their_columns() {
    let rows = vec![row("a", "x", 100, 130), row("a", "y", 200, 230)];
    let found = get_routes(rows, &index(&["x", "y"])).unwrap();
    let times = &found.trips_by_stops[0].trips[0].stop_times;
    assert_eq!(times[0].arrival_time, Time::Finite(100));
    assert_eq!(times[0].departure_time, Time::Finite(130));
    assert_eq!(times[1].arrival_time, Time::Finite(200));
    assert_eq!(times[1].departure_time, Time::Finite(230));
}

#[test]
fn a_stop_time_at_an_unknown_stop_is_an_error() {
    let rows = vec![row("a", "x", 1, 1), row("a", "nowhere", 2, 2)];
    let found = get_routes(rows, &index(&["x", "y"]));
    assert!(matches!(found, Err(AssemblyError::UnknownStopId(id)) if id == "nowhere"));
}

#[test]
fn rows_out_of_order_are_an_error() {
    let departure = vec![row("a", "x", 10, 10), row("a", "y", 5, 5)];
    assert!(matches!(
        get_routes(departure, &index(&["x", "y"])),
        Err(AssemblyError::MissingOrdering)
    ));
    let trip = vec![row("b", "x", 1, 1), row("a", "y", 2, 2)];
    assert!(matches!(get_routes(trip, &index(&["x", "y"])), Err(AssemblyError::MissingOrdering)));
    let again = vec![row("a", "x", 1, 1), row("b", "y", 2, 2), row("a", "y", 3, 3)];
    assert!(matches!(get_routes(again, &index(&["x", "y"])), Err(AssemblyError::MissingOrdering)));
    let prefix = vec![row("a", "x", 9, 9), row("ab", "y", 2, 2), row("b", "y", 1, 1)];
    assert!(get_routes(prefix, &index(&["x", "y"])).is_ok());
}

#[test]
fn an_unknown_stop_is_found_before_a_broken_order() {
    let rows = vec![row("b", "x", 1, 1), row("a", "nowhere", 2, 2)];
    let found = get_routes(rows, &index(&["x"]));
    assert!(matches!(found, Err(AssemblyError::UnknownStopId(id)) if id == "nowhere"));
}

#[test]
fn a_time_stamp_that_is_none_fails_the_row() {
    let good = stop_time_row("a".to_string(), "x".to_string(), "8:00:00", "08:01:30").unwrap();
    assert_eq!(good.arrival_seconds, 28800);
    assert_eq!(good.departure_seconds, 28890);
    assert_eq!(good.trip_id, "a");
    assert_eq!(good.stop_id, "x");
    let bad = stop_time_row("a".to_string(), "x".to_string(), "08:00:00", "08:61:00");
    assert!(matches!(
        bad,
        Err(AssemblyError::MalformedTime(ParseTimeError::ValueOutOfRange(
            TimeFraction::Minutes,
            61
        )))
    ));
    let both = stop_time_row("a".to_string(), "x".to_string(), "", "08:61:00");
    assert!(matches!(
        both,
        Err(AssemblyError::MalformedTime(ParseTimeError::InvalidLength(0)))
    ));
}

#[test]
fn the_arrays_hold_a_block_per_route_and_per_stop() {
    let stops = ids(&["x", "y", "z", "lonely"]);
    let rows = vec![
        row("a", "x", 100, 101),
        row("a", "y", 200, 201),
        row("a", "z", 300, 301),
        row("b", "z", 50, 51),
        row("b", "y", 60, 61),
        row("c", "x", 10, 11),
        row("c", "y", 20, 21),
        row("c", "z", 30, 31),
    ];
    let data = setup_raptor(stops, vec![walk("y", "lonely", 45)], rows).unwrap();
    let routes = data.routes_data();
    assert_eq!(routes.route_stops, vec![0, 1, 2, 2, 1]);
    assert_eq!(routes.routes.len(), 2);
    assert_eq!(routes.routes[0].number_of_trips, 2);
    assert_eq!(routes.routes[0].number_of_stops, 3);
    assert_eq!(routes.routes[0].route_stops_start_index, 0);
    assert_eq!(routes.routes[0].stop_times_start_index, 0);
    assert_eq!(routes.routes[1].number_of_trips, 1);
    assert_eq!(routes.routes[1].number_of_stops, 2);
    assert_eq!(routes.routes[1].route_stops_start_index, 3);
    assert_eq!(routes.routes[1].stop_times_start_index, 6);
    assert_eq!(routes.stop_times.len(), 8);
    let departures: Vec<Time> = routes.stop_times.iter().map(|time| time.departure_time).collect();
    assert_eq!(
        departures,
        [11, 21, 31, 101, 201, 301, 51, 61].map(Time::Finite).to_vec()
    );
    assert_eq!(*data.trip_ids(), ids(&["c", "a", "b"]));
    let stops = data.stops_data();
    assert_eq!(stops.stop_routes, vec![0, 0, 1, 0, 1]);
    let blocks: Vec<(usize, usize)> = stops
        .stops
        .iter()
        .map(|stop| (stop.stop_routes_index_start, stop.stop_routes_count))
        .collect();
    assert_eq!(blocks, vec![(0, 1), (1, 2), (3, 2), (5, 0)]);
    assert_eq!(stops.stops[1].transfers_index_start, 0);
    assert_eq!(stops.stops[1].transfers_count, 1);
    assert_eq!(stops.transfers.len(), 1);
    assert_eq!(stops.transfers[0].target, 3);
    assert_eq!(stops.transfers[0].time, Time::Finite(45));
    assert_eq!(data.index_by_stop_id().get(&"lonely".to_string()), Some(3));
}

#[test]
fn every_stop_lists_the_routes_that_visit_it() {
    let stops = ids(&["x", "y", "z"]);
    let rows = vec![
        row("a", "x", 1, 1),
        row("a", "y", 2, 2),
        row("b", "y", 1, 1),
        row("b", "z", 2, 2),
        row("c", "z", 1, 1),
        row("c", "x", 2, 2),
    ];
    let data = setup_raptor(stops, vec![], rows).unwrap();
    for (s, stop) in data.stops_data().stops.iter().enumerate() {
        for r in data.stops_data().get_routes(&s) {
            let route = &data.routes_data().routes[*r];
            assert!(data.routes_data().get_route_stops(route).contains(&s));
            assert!(data.routes_data().get_stop_sequence(route, &s).is_some());
        }
        assert_eq!(data.stops_data().get_routes_for(stop), data.stops_data().get_routes(&s));
    }
    for (r, route) in data.routes_data().routes.iter().enumerate() {
        for s in data.routes_data().get_route_stops(route) {
            assert!(data.stops_data().get_routes(s).contains(&r));
        }
        assert_eq!(
            data.routes_data().get_stop_times(route).len(),
            route.number_of_trips * route.number_of_stops
        );
    }
}

#[test]
fn the_earliest_trip_leaves_strictly_later() {
    let rows = vec![
        row("a", "x", 100, 100),
        row("a", "y", 200, 200),
        row("b", "x", 300, 300),
        row("b", "y", 400, 400),
    ];
    let data = setup_raptor(ids(&["x", "y"]), vec![], rows).unwrap();
    let routes = data.routes_data();
    let route = &routes.routes[0];
    let first = routes.get_earliest_departing_trip(route, &0, &Time::Finite(99)).unwrap();
    assert_eq!(first.0, 0);
    assert_eq!(first.1.len(), 2);
    assert_eq!(first.1[1].arrival_time, Time::Finite(200));
    let next = routes.get_earliest_departing_trip(route, &0, &Time::Finite(100)).unwrap();
    assert_eq!(next.0, 1);
    assert_eq!(next.1[0].departure_time, Time::Finite(300));
    assert!(routes.get_earliest_departing_trip(route, &0, &Time::Finite(300)).is_none());
    assert!(routes.get_earliest_departing_trip(route, &1, &Time::Infinite).is_none());
    assert_eq!(routes.get_earliest_departing_trip(route, &1, &Time::Finite(200)).unwrap().0, 1);
    assert_eq!(routes.get_stop_sequence(route, &1), Some(1));
    assert_eq!(routes.get_stop_sequence(route, &7), None);
}

#[test]
fn routes_without_rows_give_empty_arrays() {
    let found = get_stops(ids(&["x"]), vec![]).unwrap();
    let routes = get_routes(vec![], &found.index_by_stop_id).unwrap();
    let (routes_data, stops_data, trip_ids) =
        assemble_raptor_data(routes, found.stops, found.transfers);
    assert!(routes_data.routes.is_empty());
    assert!(routes_data.stop_times.is_empty());
    assert!(routes_data.route_stops.is_empty());
    assert!(trip_ids.is_empty());
    assert_eq!(stops_data.stops.len(), 1);
    assert_eq!(stops_data.stops[0].id, "x");
    assert_eq!(stops_data.stops[0].stop_routes_count, 0);
    let _ = Transfer { target: 0, time: Time::Infinite };
}

#[test]
fn two_stops_are_the_same_stop_where_their_ids_are() {
    let found = get_stops(ids(&["x", "y"]), vec![]).unwrap();
    let routes = get_routes(vec![row("a", "x", 1, 1)], &found.index_by_stop_id).unwrap();
    let (_, stops_data, _) = assemble_raptor_data(routes, found.stops, found.transfers);
    let mut twin = stops_data.stops[0].clone();
    twin.stop_routes_count = 9;
    assert!(twin == stops_data.stops[0]);
    assert!(stops_data.stops[0] != stops_data.stops[1]);
}

#[test]
fn every_trip_has_a_run_of_as_many_stop_times_as_its_route_has_stops() {
    let rows = vec![
        row("a", "x", 100, 101),
        row("a", "y", 200, 201),
        row("a", "z", 300, 301),
        row("b", "x", 90, 91),
        row("b", "y", 190, 191),
        row("b", "z", 290, 291),
        row("c", "y", 5, 6),
        row("c", "z", 7, 8),
    ];
    let data = setup_raptor(ids(&["x", "y", "z"]), vec![], rows).unwrap();
    let routes = data.routes_data();
    assert_eq!(routes.routes.len(), 2);
    for route in &routes.routes {
        let times = routes.get_stop_times(route);
        assert_eq!(times.len(), route.number_of_trips * route.number_of_stops);
        let mut after = Time::Finite(0);
        for trip in 0..route.number_of_trips {
            let found = routes.get_earliest_departing_trip(route, &0, &after).unwrap();
            assert_eq!(found.0, trip);
            assert_eq!(found.1.len(), route.number_of_stops);
            // the trips leave the first stop in the order of their numbers
            assert!(after <= found.1[0].departure_time);
            after = found.1[0].departure_time;
            // and every trip leaves its stops in their order
            for position in 1..route.number_of_stops {
                assert!(found.1[position - 1].departure_time <= found.1[position].departure_time);
            }
        }
    }
}

#[test]
fn waiting_longer_gives_no_earlier_trip() {
    let rows = vec![
        row("a", "x", 100, 100),
        row("a", "y", 200, 200),
        row("b", "x", 300, 300),
        row("b", "y", 400, 400),
        row("c", "x", 500, 500),
        row("c", "y", 600, 600),
    ];
    let data = setup_raptor(ids(&["x", "y"]), vec![], rows).unwrap();
    let routes = data.routes_data();
    let route = &routes.routes[0];
    let mut last = 0;
    for after in [0, 99, 100, 101, 299, 300, 499] {
        let trip = routes.get_earliest_departing_trip(route, &0, &Time::Finite(after)).unwrap().0;
        assert!(last <= trip);
        last = trip;
    }
    assert!(routes.get_earliest_departing_trip(route, &0, &Time::Finite(500)).is_none());
}
