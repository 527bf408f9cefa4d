//! What holds of the routes that the assembler builds, and of the arrays that it flattens
//! them into.

use vstd::prelude::*;

use crate::assemble::{
    calls, flattens, serving, serving_blocks, stop_blocks, time_blocks, trip_blocks,
};
use crate::data::{
    departs, fault_at, fault_in, filed, in_order, lower_bound, route_with, routes_from, runs_of,
    stop_of, stop_time_of, PartialStop, RouteModel, RunModel, StopTimeRow, TripModel,
};
use crate::packing::{joined, lemma_block_of_joined, lemma_entry_of_joined, lemma_offset_end, offset};
use crate::shared::{network_well_formed, RoutesData, StopsData, Transfer};

verus! {

/// The trip leaves its stops in the order in which it visits them.
pub open spec fn leaves_in_order(trip: TripModel) -> bool {
    forall|i: int, j: int|
        0 <= i <= j < trip.stop_times.len() ==> (
        #[trigger] trip.stop_times[i]).departure_time.at_most(
            (#[trigger] trip.stop_times[j]).departure_time,
        )
}

/// The trip has one stop time for each of its stops, at least one, its stops are below
/// `stop_count`, and it leaves them in the order in which it visits them.
pub open spec fn run_fits(run: RunModel, stop_count: int) -> bool {
    &&& run.stops.len() > 0
    &&& run.trip.stop_times.len() == run.stops.len()
    &&& forall|j: int| 0 <= j < run.stops.len() ==> (#[trigger] run.stops[j]) < stop_count
    &&& leaves_in_order(run.trip)
}

/// The trips leave their first stop in the order in which they stand.
pub open spec fn in_departure_order(trips: Seq<TripModel>) -> bool {
    forall|t: int, u: int|
        0 <= t <= u < trips.len() ==> departs(#[trigger] trips[t]) <= departs(#[trigger] trips[u])
}

/// The route has a trip, every trip has one stop time for each stop of the route and leaves
/// the stops in their order, the stops are below `stop_count`, and the trips are in the
/// order of their departure.
pub open spec fn route_fits(route: RouteModel, stop_count: int) -> bool {
    &&& route.stops.len() > 0
    &&& route.trips.len() > 0
    &&& forall|j: int| 0 <= j < route.stops.len() ==> (#[trigger] route.stops[j]) < stop_count
    &&& forall|t: int|
        0 <= t < route.trips.len() ==> (#[trigger] route.trips[t]).stop_times.len()
            == route.stops.len() && leaves_in_order(route.trips[t])
    &&& in_departure_order(route.trips)
}

/// Every route fits, and no two routes visit the same sequence of stops.
pub open spec fn tidy(routes: Seq<RouteModel>, stop_count: int) -> bool {
    &&& forall|r: int| 0 <= r < routes.len() ==> route_fits(#[trigger] routes[r], stop_count)
    &&& forall|r: int, q: int|
        #![trigger routes[r], routes[q]]
        0 <= r < q < routes.len() ==> routes[r].stops != routes[q].stops
}

/// What `route_with` finds: a route with these stops, or that there is none.
pub proof fn lemma_route_with(routes: Seq<RouteModel>, stops: Seq<usize>, from: int)
    requires
        0 <= from,
    ensures
        match route_with(routes, stops, from) {
            Some(r) => from <= r < routes.len() && routes[r].stops == stops,
            None => forall|q: int| from <= q < routes.len() ==> (#[trigger] routes[q]).stops != stops,
        },
    decreases routes.len() - from,
{
    if from < routes.len() && routes[from].stops != stops {
        lemma_route_with(routes, stops, from + 1);
    }
}

/// Where `lower_bound` points in trips that are in the order of their departure: every trip
/// before leaves earlier than `rank`, and none from there on does.
pub proof fn lemma_lower_bound(trips: Seq<TripModel>, rank: int)
    requires
        in_departure_order(trips),
    ensures
        0 <= lower_bound(trips, rank) <= trips.len(),
        forall|t: int| 0 <= t < lower_bound(trips, rank) ==> departs(#[trigger] trips[t]) < rank,
        forall|t: int|
            lower_bound(trips, rank) <= t < trips.len() ==> departs(#[trigger] trips[t]) >= rank,
    decreases trips.len(),
{
    if trips.len() > 0 {
        let rest = trips.drop_first();
        assert forall|t: int, u: int| 0 <= t <= u < rest.len() implies departs(
            #[trigger] rest[t],
        ) <= departs(#[trigger] rest[u]) by {
            assert(rest[t] == trips[t + 1]);
            assert(rest[u] == trips[u + 1]);
        }
        if departs(trips[0]) >= rank {
            assert forall|t: int| 0 <= t < trips.len() implies departs(#[trigger] trips[t])
                >= rank by {
                assert(departs(trips[0]) <= departs(trips[t]));
            }
        } else {
            lemma_lower_bound(rest, rank);
            let place = lower_bound(rest, rank);
            assert forall|t: int| 0 <= t < place + 1 implies departs(#[trigger] trips[t])
                < rank by {
                if t > 0 {
                    assert(trips[t] == rest[t - 1]);
                }
            }
            assert forall|t: int| place + 1 <= t < trips.len() implies departs(
                #[trigger] trips[t],
            ) >= rank by {
                assert(trips[t] == rest[t - 1]);
            }
        }
    }
}

/// Trips that a trip was put among at its lower bound are in the order of their departure.
pub proof fn lemma_insert_keeps_order(trips: Seq<TripModel>, trip: TripModel)
    requires
        in_departure_order(trips),
    ensures
        in_departure_order(trips.insert(lower_bound(trips, departs(trip)), trip)),
{
    let rank = departs(trip);
    let place = lower_bound(trips, rank);
    lemma_lower_bound(trips, rank);
    let after = trips.insert(place, trip);
    assert forall|t: int, u: int| 0 <= t <= u < after.len() implies departs(#[trigger] after[t])
        <= departs(#[trigger] after[u]) by {
        if t < place {
            assert(after[t] == trips[t]);
        } else if t > place {
            assert(after[t] == trips[t - 1]);
        }
        if u < place {
            assert(after[u] == trips[u]);
        } else if u > place {
            assert(after[u] == trips[u - 1]);
        }
    }
}

/// Filing a trip that fits keeps the routes tidy.
pub proof fn lemma_filed_tidy(routes: Seq<RouteModel>, run: RunModel, stop_count: int)
    requires
        tidy(routes, stop_count),
        run_fits(run, stop_count),
    ensures
        tidy(filed(routes, run), stop_count),
{
    lemma_route_with(routes, run.stops, 0);
    let after = filed(routes, run);
    match route_with(routes, run.stops, 0) {
        Some(r) => {
            let trips = routes[r].trips;
            let place = lower_bound(trips, departs(run.trip));
            assert(route_fits(routes[r], stop_count));
            lemma_lower_bound(trips, departs(run.trip));
            lemma_insert_keeps_order(trips, run.trip);
            let grown = trips.insert(place, run.trip);
            assert forall|t: int| 0 <= t < grown.len() implies (#[trigger] grown[t]).stop_times.len()
                == routes[r].stops.len() && leaves_in_order(grown[t]) by {
                if t < place {
                    assert(grown[t] == trips[t]);
                } else if t > place {
                    assert(grown[t] == trips[t - 1]);
                }
            }
            assert forall|q: int| 0 <= q < after.len() implies route_fits(
                #[trigger] after[q],
                stop_count,
            ) by {
                if q != r {
                    assert(after[q] == routes[q]);
                }
            }
            assert forall|q: int, p: int|
                #![trigger after[q], after[p]]
                0 <= q < p < after.len() implies after[q].stops != after[p].stops by {
                assert(after[q].stops == routes[q].stops);
                assert(after[p].stops == routes[p].stops);
            }
        },
        None => {
            let opened = RouteModel { stops: run.stops, trips: seq![run.trip] };
            assert(route_fits(opened, stop_count));
            assert forall|q: int| 0 <= q < after.len() implies route_fits(
                #[trigger] after[q],
                stop_count,
            ) by {
                if q < routes.len() {
                    assert(after[q] == routes[q]);
                }
            }
            assert forall|q: int, p: int|
                #![trigger after[q], after[p]]
                0 <= q < p < after.len() implies after[q].stops != after[p].stops by {
                assert(after[q] == routes[q]);
                if p < routes.len() {
                    assert(after[p] == routes[p]);
                }
            }
        },
    }
}

/// The routes of trips that fit are tidy.
pub proof fn lemma_routes_from_tidy(runs: Seq<RunModel>, upto: int, stop_count: int)
    requires
        0 <= upto <= runs.len(),
        forall|i: int| 0 <= i < runs.len() ==> run_fits(#[trigger] runs[i], stop_count),
    ensures
        tidy(routes_from(runs, upto), stop_count),
    decreases upto,
{
    if upto > 0 {
        lemma_routes_from_tidy(runs, upto - 1, stop_count);
        lemma_filed_tidy(routes_from(runs, upto - 1), runs[upto - 1], stop_count);
    }
}

/// Routes of trips that visit no stop twice visit no stop twice.
pub proof fn lemma_routes_visit_once(runs: Seq<RunModel>, upto: int)
    requires
        0 <= upto <= runs.len(),
        forall|i: int| 0 <= i < runs.len() ==> (#[trigger] runs[i]).stops.no_duplicates(),
    ensures
        forall|r: int|
            0 <= r < routes_from(runs, upto).len() ==> (#[trigger] routes_from(
                runs,
                upto,
            )[r]).stops.no_duplicates(),
    decreases upto,
{
    if upto > 0 {
        lemma_routes_visit_once(runs, upto - 1);
        let before = routes_from(runs, upto - 1);
        let after = routes_from(runs, upto);
        let run = runs[upto - 1];
        lemma_route_with(before, run.stops, 0);
        assert forall|r: int| 0 <= r < after.len() implies (#[trigger] after[r]).stops.no_duplicates() by {
            match route_with(before, run.stops, 0) {
                Some(q) => {
                    assert(after[r].stops == before[r].stops);
                },
                None => {
                    if r < before.len() {
                        assert(after[r] == before[r]);
                    }
                },
            }
        }
    }
}

/// The trips that rows without a fault describe fit the stops.
pub proof fn lemma_runs_fit(names: Seq<Seq<char>>, rows: Seq<StopTimeRow>, upto: int)
    requires
        0 <= upto <= rows.len(),
        fault_in(names, rows, upto) is None,
    ensures
        upto > 0 ==> runs_of(names, rows, upto).len() > 0 && runs_of(
            names,
            rows,
            upto,
        ).last().trip.stop_times.last() == stop_time_of(rows[upto - 1]),
        forall|i: int|
            0 <= i < runs_of(names, rows, upto).len() ==> run_fits(
                #[trigger] runs_of(names, rows, upto)[i],
                names.len() as int,
            ),
    decreases upto,
{
    if upto > 0 {
        lemma_runs_fit(names, rows, upto - 1);
        let before = runs_of(names, rows, upto - 1);
        let after = runs_of(names, rows, upto);
        let row = rows[upto - 1];
        assert(fault_at(names, rows, upto - 1) is None);
        names.index_of_first_ensures(row.stop_id@);
        let stop = stop_of(names, row.stop_id@).unwrap() as usize;
        assert(stop < names.len());
        assert forall|i: int| 0 <= i < after.len() implies run_fits(
            #[trigger] after[i],
            names.len() as int,
        ) by {
            if upto >= 2 && rows[upto - 2].trip_id@ == row.trip_id@ {
                if i < before.len() - 1 {
                    assert(after[i] == before[i]);
                } else {
                    let last = before.last();
                    assert(run_fits(last, names.len() as int));
                    assert forall|j: int| 0 <= j < after[i].stops.len() implies (
                    #[trigger] after[i].stops[j]) < names.len() by {
                        if j < last.stops.len() {
                            assert(after[i].stops[j] == last.stops[j]);
                        }
                    }
                    assert(fault_at(names, rows, upto - 1) is None);
                    assert(in_order(rows[upto - 2], row));
                    let times = after[i].trip.stop_times;
                    let end = last.trip.stop_times.len() as int;
                    assert(last.trip.stop_times[end - 1] == stop_time_of(rows[upto - 2]));
                    assert forall|a: int, b: int| 0 <= a <= b < times.len() implies (
                    #[trigger] times[a]).departure_time.at_most(
                        (#[trigger] times[b]).departure_time,
                    ) by {
                        if a < end {
                            assert(times[a] == last.trip.stop_times[a]);
                            assert(last.trip.stop_times[a].departure_time.at_most(
                                last.trip.stop_times[end - 1].departure_time,
                            ));
                        }
                        if b < end {
                            assert(times[b] == last.trip.stop_times[b]);
                        }
                    }
                }
            } else {
                if i < before.len() {
                    assert(after[i] == before[i]);
                }
            }
        }
    }
}

/// Blocks of one length lie at the multiples of that length.
pub proof fn lemma_even_blocks<T>(blocks: Seq<Seq<T>>, length: int, t: int)
    requires
        0 <= t <= blocks.len(),
        0 <= length,
        forall|i: int| 0 <= i < blocks.len() ==> (#[trigger] blocks[i]).len() == length,
    ensures
        offset(blocks, t) == t * length,
    decreases t,
{
    if t == 0 {
        assert(blocks.take(0) =~= Seq::empty());
    } else {
        lemma_even_blocks(blocks, length, t - 1);
        crate::packing::lemma_offset_step(blocks, t - 1);
        assert((t - 1) * length + length == t * length) by (nonlinear_arith);
    }
}

/// `calls` holds nothing but the route, and holds it where the stops name the stop.
pub proof fn lemma_calls(stops: Seq<usize>, s: int, r: usize, upto: int)
    requires
        0 <= upto <= stops.len(),
    ensures
        forall|i: int|
            0 <= i < calls(stops, s, r, upto).len() ==> (#[trigger] calls(stops, s, r, upto)[i])
                == r,
        calls(stops, s, r, upto).len() > 0 <==> exists|j: int|
            0 <= j < upto && (#[trigger] stops[j]) == s,
    decreases upto,
{
    if upto > 0 {
        lemma_calls(stops, s, r, upto - 1);
        if stops[upto - 1] == s {
        } else {
            if exists|j: int| 0 <= j < upto && (#[trigger] stops[j]) == s {
                let j = choose|j: int| 0 <= j < upto && (#[trigger] stops[j]) == s;
                assert(j < upto - 1);
            }
        }
    }
}

/// `r` is among `block`.
pub open spec fn listed(block: Seq<usize>, r: int) -> bool {
    exists|i: int| 0 <= i < block.len() && (#[trigger] block[i]) == r
}

/// `stops` names stop `s`.
pub open spec fn names_stop(stops: Seq<usize>, s: int) -> bool {
    exists|j: int| 0 <= j < stops.len() && (#[trigger] stops[j]) == s
}

/// `serving` holds exactly the routes that visit the stop.
pub proof fn lemma_serving(routes: Seq<RouteModel>, s: int, upto: int, r: int)
    requires
        0 <= upto <= routes.len(),
        routes.len() <= usize::MAX,
    ensures
        listed(serving(routes, s, upto), r) <==> (0 <= r < upto && names_stop(routes[r].stops, s)),
    decreases upto,
{
    if upto > 0 {
        lemma_serving(routes, s, upto - 1, r);
        let before = serving(routes, s, upto - 1);
        let last = routes[upto - 1].stops;
        let added = calls(last, s, (upto - 1) as usize, last.len() as int);
        lemma_calls(last, s, (upto - 1) as usize, last.len() as int);
        let all = serving(routes, s, upto);
        assert(all == before + added);
        if listed(all, r) {
            let i = choose|i: int| 0 <= i < all.len() && (#[trigger] all[i]) == r;
            if i < before.len() {
                assert(before[i] == r);
                assert(listed(before, r));
            } else {
                assert(added[i - before.len()] == r);
                assert(added.len() > 0);
                assert(names_stop(last, s));
            }
        }
        if 0 <= r < upto && names_stop(routes[r].stops, s) {
            if r < upto - 1 {
                let i = choose|i: int| 0 <= i < before.len() && (#[trigger] before[i]) == r;
                assert(all[i] == r);
            } else {
                assert(added.len() > 0);
                assert(added[0] == r);
                assert(all[before.len() as int] == r);
            }
        }
    }
}

/// The block of foot-paths of every stop lies inside the array, and every foot-path leads
/// to a stop.
pub open spec fn stops_fit(partial_stops: Seq<PartialStop>, transfers: Seq<Transfer>) -> bool {
    &&& forall|s: int|
        0 <= s < partial_stops.len() ==> (#[trigger] partial_stops[s]).transfers_index_start
            + partial_stops[s].transfers_count <= transfers.len()
    &&& forall|i: int|
        0 <= i < transfers.len() ==> (#[trigger] transfers[i]).target < partial_stops.len()
}

/// The arrays hold the stops and the stop times of every route as the routes give them.
pub open spec fn mirrors(routes: Seq<RouteModel>, routes_data: RoutesData) -> bool {
    &&& routes_data.routes@.len() == routes.len()
    &&& forall|r: int|
        0 <= r < routes.len() ==> routes_data.stops_of(#[trigger] routes_data.routes@[r])
            == routes[r].stops
    &&& forall|r: int, t: int|
        0 <= r < routes.len() && 0 <= t < routes[r].trips.len() ==> routes_data.trip_of(
            routes_data.routes@[r],
            t,
        ) == (#[trigger] routes[r].trips[t]).stop_times
}

/// Every trip leaves the stops of its route in the order in which it visits them.
pub open spec fn trips_leave_in_order(routes_data: RoutesData) -> bool {
    forall|r: int, t: int, i: int, j: int|
        0 <= r < routes_data.routes@.len() && 0 <= t < routes_data.routes@[r].number_of_trips
            && 0 <= i <= j < routes_data.routes@[r].number_of_stops ==> (
        #[trigger] routes_data.stop_time(routes_data.routes@[r], t, i)).departure_time.at_most(
            (#[trigger] routes_data.stop_time(routes_data.routes@[r], t, j)).departure_time,
        )
}

/// The trips of every route leave the first stop in the order of their numbers.
pub open spec fn departures_ascend(routes_data: RoutesData) -> bool {
    forall|r: int, t: int, u: int|
        0 <= r < routes_data.routes@.len() && 0 <= t <= u < routes_data.routes@[r].number_of_trips
            ==> (#[trigger] routes_data.stop_time(
            routes_data.routes@[r],
            t,
            0,
        )).departure_time.at_most(
            (#[trigger] routes_data.stop_time(routes_data.routes@[r], u, 0)).departure_time,
        )
}

/// The blocks of route `r` lie inside the arrays and hold its stops and its stop times.
pub proof fn lemma_route_blocks(
    routes: Seq<RouteModel>,
    partial_stops: Seq<PartialStop>,
    transfers: Seq<Transfer>,
    routes_data: RoutesData,
    stops_data: StopsData,
    trip_ids: Seq<String>,
    r: int,
)
    requires
        flattens(routes, partial_stops, transfers, routes_data, stops_data, trip_ids),
        tidy(routes, partial_stops.len() as int),
        0 <= r < routes.len(),
    ensures
        routes_data.holds(routes_data.routes@[r]),
        routes_data.stops_of(routes_data.routes@[r]) == routes[r].stops,
        routes_data.times_of(routes_data.routes@[r]) == joined(trip_blocks(routes[r])),
{
    let route = routes_data.routes@[r];
    let stop_parts = stop_blocks(routes);
    let time_parts = time_blocks(routes);
    assert(route_fits(routes[r], partial_stops.len() as int));
    lemma_block_of_joined(stop_parts, r);
    lemma_block_of_joined(time_parts, r);
    let trips = trip_blocks(routes[r]);
    assert forall|t: int| 0 <= t < trips.len() implies (#[trigger] trips[t]).len()
        == routes[r].stops.len() by {
        assert(routes[r].trips[t].stop_times.len() == routes[r].stops.len());
    }
    lemma_even_blocks(trips, routes[r].stops.len() as int, trips.len() as int);
    lemma_offset_end(trips);
    assert(time_parts[r] == joined(trips));
    assert(stop_parts[r] == routes[r].stops);
    assert(routes_data.route_stops.len() == routes_data.route_stops@.len());
    assert(routes_data.stop_times.len() == routes_data.stop_times@.len());
}

/// The run of trip `t` of route `r` holds the stop times of the trip.
pub proof fn lemma_trip_run(
    routes: Seq<RouteModel>,
    partial_stops: Seq<PartialStop>,
    transfers: Seq<Transfer>,
    routes_data: RoutesData,
    stops_data: StopsData,
    trip_ids: Seq<String>,
    r: int,
    t: int,
)
    requires
        flattens(routes, partial_stops, transfers, routes_data, stops_data, trip_ids),
        tidy(routes, partial_stops.len() as int),
        0 <= r < routes.len(),
        0 <= t < routes[r].trips.len(),
    ensures
        routes_data.trip_of(routes_data.routes@[r], t) == routes[r].trips[t].stop_times,
        routes_data.stop_time(routes_data.routes@[r], t, 0).departure_time.rank() == departs(
            routes[r].trips[t],
        ),
        forall|i: int|
            0 <= i < routes[r].stops.len() ==> #[trigger] routes_data.stop_time(
                routes_data.routes@[r],
                t,
                i,
            ) == routes[r].trips[t].stop_times[i],
{
    lemma_route_blocks(routes, partial_stops, transfers, routes_data, stops_data, trip_ids, r);
    let route = routes_data.routes@[r];
    assert(route_fits(routes[r], partial_stops.len() as int));
    let trips = trip_blocks(routes[r]);
    let length = routes[r].stops.len() as int;
    assert forall|u: int| 0 <= u < trips.len() implies (#[trigger] trips[u]).len() == length by {
        assert(routes[r].trips[u].stop_times.len() == routes[r].stops.len());
    }
    lemma_even_blocks(trips, length, t);
    lemma_block_of_joined(trips, t);
    crate::shared::lemma_trip_block(t, trips.len() as int, length);
    assert(routes_data.trip_of(route, t) =~= routes_data.times_of(route).subrange(
        t * length,
        t * length + length,
    ));
    assert(trips[t] == routes[r].trips[t].stop_times);
    assert(routes_data.trip_of(route, t)[0] == routes_data.stop_time(route, t, 0));
    assert forall|i: int| 0 <= i < routes[r].stops.len() implies #[trigger] routes_data.stop_time(
        route,
        t,
        i,
    ) == routes[r].trips[t].stop_times[i] by {
        assert(routes_data.trip_of(route, t)[i] == routes_data.stop_time(route, t, i));
    }
}

/// The block of routes of stop `s` lies inside the array and holds the routes that visit it.
pub proof fn lemma_stop_blocks(
    routes: Seq<RouteModel>,
    partial_stops: Seq<PartialStop>,
    transfers: Seq<Transfer>,
    routes_data: RoutesData,
    stops_data: StopsData,
    trip_ids: Seq<String>,
    s: int,
)
    requires
        flattens(routes, partial_stops, transfers, routes_data, stops_data, trip_ids),
        stops_fit(partial_stops, transfers),
        0 <= s < partial_stops.len(),
    ensures
        stops_data.holds(stops_data.stops@[s]),
        stops_data.routes_of(stops_data.stops@[s]) == serving(routes, s, routes.len() as int),
{
    let served = serving_blocks(routes, partial_stops.len() as int);
    lemma_block_of_joined(served, s);
    assert(partial_stops[s].transfers_index_start + partial_stops[s].transfers_count
        <= transfers.len());
    assert(stops_data.stop_routes.len() == stops_data.stop_routes@.len());
    assert(stops_data.transfers.len() == stops_data.transfers@.len());
}

/// Stop `s` lists route `r` exactly where the route visits the stop.
pub proof fn lemma_lists_visits(
    routes: Seq<RouteModel>,
    partial_stops: Seq<PartialStop>,
    transfers: Seq<Transfer>,
    routes_data: RoutesData,
    stops_data: StopsData,
    trip_ids: Seq<String>,
    s: int,
    r: int,
)
    requires
        flattens(routes, partial_stops, transfers, routes_data, stops_data, trip_ids),
        tidy(routes, partial_stops.len() as int),
        stops_fit(partial_stops, transfers),
        0 <= s < partial_stops.len(),
        0 <= r < routes.len(),
    ensures
        stops_data.lists(s, r) <==> routes_data.visits(r, s),
{
    lemma_route_blocks(routes, partial_stops, transfers, routes_data, stops_data, trip_ids, r);
    lemma_stop_blocks(routes, partial_stops, transfers, routes_data, stops_data, trip_ids, s);
    assert(routes_data.routes.len() == routes.len());
    let block = serving(routes, s, routes.len() as int);
    lemma_serving(routes, s, routes.len() as int, r);
    let stop = stops_data.stops@[s];
    let route = routes_data.routes@[r];
    let served = serving_blocks(routes, partial_stops.len() as int);
    assert(served[s] == block);
    assert(stop.stop_routes_count == block.len());
    assert(route.number_of_stops == routes[r].stops.len());
    if stops_data.lists(s, r) {
        let i = choose|i: int|
            0 <= i < stop.stop_routes_count && (#[trigger] stops_data.routes_of(stop)[i]) == r;
        assert(block[i] == r);
        assert(listed(block, r));
        let j = choose|j: int|
            0 <= j < routes[r].stops.len() && (#[trigger] routes[r].stops[j]) == s;
        assert(routes_data.stops_of(route)[j] == s);
    }
    if routes_data.visits(r, s) {
        let j = choose|j: int|
            0 <= j < route.number_of_stops && (#[trigger] routes_data.stops_of(route)[j]) == s;
        assert(routes[r].stops[j] == s);
        assert(names_stop(routes[r].stops, s));
        let i = choose|i: int| 0 <= i < block.len() && (#[trigger] block[i]) == r;
        assert(stops_data.routes_of(stop)[i] == r);
    }
}

/// Every entry of the two index arrays names what it should: a stop, a route.
pub proof fn lemma_entries_valid(
    routes: Seq<RouteModel>,
    partial_stops: Seq<PartialStop>,
    transfers: Seq<Transfer>,
    routes_data: RoutesData,
    stops_data: StopsData,
    trip_ids: Seq<String>,
)
    requires
        flattens(routes, partial_stops, transfers, routes_data, stops_data, trip_ids),
        tidy(routes, partial_stops.len() as int),
    ensures
        forall|i: int|
            0 <= i < routes_data.route_stops@.len() ==> (#[trigger] routes_data.route_stops@[i])
                < partial_stops.len(),
        forall|i: int|
            0 <= i < stops_data.stop_routes@.len() ==> (#[trigger] stops_data.stop_routes@[i])
                < routes.len(),
{
    let stop_count = partial_stops.len() as int;
    let stop_parts = stop_blocks(routes);
    let served = serving_blocks(routes, stop_count);
    assert(routes_data.routes.len() == routes.len());
    assert forall|i: int| 0 <= i < routes_data.route_stops@.len() implies (
    #[trigger] routes_data.route_stops@[i]) < stop_count by {
        let place = lemma_entry_of_joined(stop_parts, i);
        assert(route_fits(routes[place.0], stop_count));
        assert(stop_parts[place.0] == routes[place.0].stops);
        assert(routes[place.0].stops[place.1] < stop_count);
    }
    assert forall|i: int| 0 <= i < stops_data.stop_routes@.len() implies (
    #[trigger] stops_data.stop_routes@[i]) < routes.len() by {
        let place = lemma_entry_of_joined(served, i);
        let block = serving(routes, place.0, routes.len() as int);
        assert(served[place.0] == block);
        assert(block[place.1] == stops_data.stop_routes@[i]);
        let r = block[place.1] as int;
        lemma_serving(routes, place.0, routes.len() as int, r);
        assert(listed(block, r));
    }
}

/// Tidy routes and stops whose foot-paths fit, flattened, are a well-formed network: every
/// block lies inside its array, every index names what it should, a stop lists a route
/// exactly where the route visits it, every trip has its stop times in a run of as many
/// entries as the route has stops, and the trips of a route are in the order of their
/// departure at the first stop.
pub proof fn lemma_flattened_network(
    routes: Seq<RouteModel>,
    partial_stops: Seq<PartialStop>,
    transfers: Seq<Transfer>,
    routes_data: RoutesData,
    stops_data: StopsData,
    trip_ids: Seq<String>,
)
    requires
        flattens(routes, partial_stops, transfers, routes_data, stops_data, trip_ids),
        tidy(routes, partial_stops.len() as int),
        stops_fit(partial_stops, transfers),
    ensures
        network_well_formed(&routes_data, &stops_data),
        mirrors(routes, routes_data),
        departures_ascend(routes_data),
        trips_leave_in_order(routes_data),
{
    let stop_count = partial_stops.len() as int;
    assert forall|r: int, t: int, i: int, j: int|
        0 <= r < routes_data.routes@.len() && 0 <= t < routes_data.routes@[r].number_of_trips
            && 0 <= i <= j < routes_data.routes@[r].number_of_stops implies (
    #[trigger] routes_data.stop_time(routes_data.routes@[r], t, i)).departure_time.at_most(
        (#[trigger] routes_data.stop_time(routes_data.routes@[r], t, j)).departure_time,
    ) by {
        lemma_trip_run(routes, partial_stops, transfers, routes_data, stops_data, trip_ids, r, t);
        assert(route_fits(routes[r], stop_count));
        assert(leaves_in_order(routes[r].trips[t]));
        let times = routes[r].trips[t].stop_times;
        assert(times[i].departure_time.at_most(times[j].departure_time));
    }
    lemma_entries_valid(routes, partial_stops, transfers, routes_data, stops_data, trip_ids);
    assert forall|r: int| 0 <= r < routes.len() implies routes_data.holds(
        #[trigger] routes_data.routes@[r],
    ) && routes_data.stops_of(routes_data.routes@[r]) == routes[r].stops by {
        lemma_route_blocks(routes, partial_stops, transfers, routes_data, stops_data, trip_ids, r);
    }
    assert forall|r: int, t: int|
        0 <= r < routes.len() && 0 <= t < routes[r].trips.len() implies routes_data.trip_of(
        routes_data.routes@[r],
        t,
    ) == (#[trigger] routes[r].trips[t]).stop_times by {
        lemma_trip_run(routes, partial_stops, transfers, routes_data, stops_data, trip_ids, r, t);
    }
    assert forall|s: int| 0 <= s < stop_count implies stops_data.holds(
        #[trigger] stops_data.stops@[s],
    ) by {
        lemma_stop_blocks(routes, partial_stops, transfers, routes_data, stops_data, trip_ids, s);
    }
    assert forall|s: int, r: int|
        #![trigger stops_data.lists(s, r)]
        #![trigger routes_data.visits(r, s)]
        0 <= s < stop_count && 0 <= r < routes.len() implies (stops_data.lists(s, r)
        <==> routes_data.visits(r, s)) by {
        lemma_lists_visits(
            routes,
            partial_stops,
            transfers,
            routes_data,
            stops_data,
            trip_ids,
            s,
            r,
        );
    }
    assert forall|r: int, t: int, u: int|
        0 <= r < routes_data.routes@.len() && 0 <= t <= u
            < routes_data.routes@[r].number_of_trips implies (#[trigger] routes_data.stop_time(
        routes_data.routes@[r],
        t,
        0,
    )).departure_time.at_most(
        (#[trigger] routes_data.stop_time(routes_data.routes@[r], u, 0)).departure_time,
    ) by {
        lemma_trip_run(routes, partial_stops, transfers, routes_data, stops_data, trip_ids, r, t);
        lemma_trip_run(routes, partial_stops, transfers, routes_data, stops_data, trip_ids, r, u);
        assert(route_fits(routes[r], stop_count));
        assert(departs(routes[r].trips[t]) <= departs(routes[r].trips[u]));
    }
}

} // verus!
