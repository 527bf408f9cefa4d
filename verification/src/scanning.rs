//! What the scan of the routes keeps true of a round.

use vstd::prelude::*;

use crate::journey::{after_leg, leg_fits, lemma_reachable_further, reachable, Leg, Place};
use crate::rounds::{
    alight, board, first_marked, fresh, ride_along, riding_arrival, scan_routes, Connection,
    Riding, Round,
};
use crate::shared::{Route, RoutesData, StopsData};
use crate::time::Time;

verus! {

/// Every label that is a time is the end of a journey from `start` with at most `limit` rides.
pub open spec fn sound(
    routes: &RoutesData,
    stops: &StopsData,
    start: Place,
    labels: Seq<Time>,
    limit: int,
) -> bool {
    forall|x: int|
        0 <= x < labels.len() && (#[trigger] labels[x]).before(Time::Infinite) ==> reachable(
            routes,
            stops,
            start,
            Place { stop: x as usize, time: labels[x] },
            limit,
        )
}

/// Stop `x` has its label from a ride: the connection names a trip of a route, a stop that
/// the round before reached as the stop where the trip was boarded, and the stop itself as
/// the exit; the label is the best arrival known for the stop, strictly earlier than the
/// one known before the round, `base`.
pub open spec fn ride_mark(
    routes: &RoutesData,
    previous: Seq<Time>,
    base: Seq<Time>,
    round: Round,
    x: int,
) -> bool {
    &&& round.connections.contains_key(x as usize)
    &&& round.connections[x as usize] matches Connection::Connection {
        route,
        trip_number,
        boarded_at_stop,
        exited_at_stop,
    }
    &&& route < routes.routes@.len()
    &&& boarded_at_stop < previous.len()
    &&& previous[boarded_at_stop as int].before(Time::Infinite)
    &&& trip_number < routes.routes@[route as int].number_of_trips
    &&& exited_at_stop == x
    &&& round.labels[x] == round.best[x]
    &&& round.best[x].before(base[x])
}

/// The state of a round while the routes are scanned. `previous` holds the labels of the
/// round before, `base` the best arrivals known before the round.
pub open spec fn scanned_well(
    routes: &RoutesData,
    stops: &StopsData,
    start: Place,
    limit: int,
    previous: Seq<Time>,
    base: Seq<Time>,
    round: Round,
) -> bool {
    let stop_count = stops.stops@.len() as int;
    &&& round.sized(stop_count)
    &&& base.len() == stop_count
    &&& sound(routes, stops, start, round.labels, limit)
    &&& forall|x: int| 0 <= x < stop_count ==> (#[trigger] round.best[x]).at_most(base[x])
    &&& forall|x: int|
        0 <= x < stop_count && #[trigger] round.marked[x] ==> ride_mark(routes, previous, base, round, x)
    &&& forall|x: int|
        0 <= x < stop_count && !(#[trigger] round.marked[x]) ==> round.labels[x] == Time::Infinite
            && round.best[x] == base[x]
    &&& forall|x: usize| #[trigger]
        round.connections.contains_key(x) ==> x < stop_count && round.marked[x as int]
}

/// The ridden trip was boarded at one of the positions from `from` up to `upto`, at a stop
/// that the round before reached strictly before the trip leaves it.
pub open spec fn boarded_well(
    routes: &RoutesData,
    r: usize,
    previous: Seq<Time>,
    riding: Riding,
    from: int,
    upto: int,
) -> bool {
    riding matches Some((trip, boarded)) ==> {
        let route = routes.routes@[r as int];
        &&& trip < route.number_of_trips
        &&& exists|i: int|
            from <= i < upto && routes.stops_of(route)[i] == boarded && previous[boarded as int].before(
                (#[trigger] routes.stop_time(route, trip as int, i)).departure_time,
            )
    }
}

/// What `departing_from` finds: a trip that leaves strictly later, with none such before it.
pub proof fn lemma_departing(
    routes: &RoutesData,
    route: Route,
    position: int,
    after: Time,
    from: int,
)
    requires
        0 <= from,
    ensures
        match routes.departing_from(route, position, after, from) {
            Some(trip) => {
                &&& from <= trip < route.number_of_trips
                &&& after.before(routes.stop_time(route, trip, position).departure_time)
                &&& forall|u: int|
                    from <= u < trip ==> !after.before(
                        (#[trigger] routes.stop_time(route, u, position)).departure_time,
                    )
            },
            None => forall|u: int|
                from <= u < route.number_of_trips ==> !after.before(
                    (#[trigger] routes.stop_time(route, u, position)).departure_time,
                ),
        },
    decreases route.number_of_trips - from,
{
    if from < route.number_of_trips && !after.before(
        routes.stop_time(route, from, position).departure_time,
    ) {
        lemma_departing(routes, route, position, after, from + 1);
    }
}

/// Leaving the ridden trip keeps the round well.
pub proof fn lemma_alight(
    routes: &RoutesData,
    stops: &StopsData,
    start: Place,
    limit: int,
    target: usize,
    previous: Seq<Time>,
    base: Seq<Time>,
    r: usize,
    from: int,
    position: int,
    riding: Riding,
    round: Round,
)
    requires
        routes.well_formed(stops.stops@.len() as int),
        r < routes.routes@.len(),
        0 <= from <= position < routes.routes@[r as int].number_of_stops,
        target < stops.stops@.len(),
        previous.len() == stops.stops@.len(),
        limit >= 1,
        sound(routes, stops, start, previous, limit - 1),
        scanned_well(routes, stops, start, limit, previous, base, round),
        boarded_well(routes, r, previous, riding, from, position),
    ensures
        scanned_well(
            routes,
            stops,
            start,
            limit,
            previous,
            base,
            alight(routes, r, target, position, riding, round),
        ),
{
    let route = routes.routes@[r as int];
    let stop = routes.stops_of(route)[position];
    let after = alight(routes, r, target, position, riding, round);
    let stop_count = stops.stops@.len() as int;
    assert(routes.holds(route));
    assert(stop == routes.route_stops@[route.route_stops_start_index + position]);
    assert(stop < stop_count);
    if let Some((trip, boarded)) = riding {
        let arrival = routes.stop_time(route, trip as int, position).arrival_time;
        if arrival.before(round.best[stop as int].earlier(round.best[target as int])) {
            let i = choose|i: int|
                from <= i < position && routes.stops_of(route)[i] == boarded
                    && previous[boarded as int].before(
                    (#[trigger] routes.stop_time(route, trip as int, i)).departure_time,
                );
            assert(boarded == routes.route_stops@[route.route_stops_start_index + i]);
            assert(boarded < stop_count);
            let at = Place { stop: boarded, time: previous[boarded as int] };
            assert(previous[boarded as int].before(Time::Infinite));
            assert(reachable(routes, stops, start, at, limit - 1));
            let leg = Leg::Ride { route: r, trip, from: i, to: position };
            assert(leg_fits(routes, stops, at, leg));
            lemma_reachable_further(routes, stops, start, at, limit - 1, leg);
            assert(after_leg(routes, stops, at, leg) == Place { stop, time: arrival });
            assert forall|x: int|
                0 <= x < after.labels.len() && (#[trigger] after.labels[x]).before(
                    Time::Infinite,
                ) implies reachable(
                routes,
                stops,
                start,
                Place { stop: x as usize, time: after.labels[x] },
                limit,
            ) by {
                if x != stop {
                    assert(after.labels[x] == round.labels[x]);
                }
            }
            assert forall|x: int| 0 <= x < stop_count && #[trigger] after.marked[x] implies ride_mark(
                routes,
                previous,
                base,
                after,
                x,
            ) by {
                if x != stop {
                    assert(round.marked[x]);
                    assert(ride_mark(routes, previous, base, round, x));
                    assert(after.connections[x as usize] == round.connections[x as usize]);
                } else {
                    assert(round.best[x].at_most(base[x]));
                }
            }
            assert forall|x: int| 0 <= x < stop_count implies (#[trigger] after.best[x]).at_most(
                base[x],
            ) by {
                assert(round.best[x].at_most(base[x]));
            }
            assert forall|x: int| 0 <= x < stop_count && !(#[trigger] after.marked[x]) implies
                after.labels[x] == Time::Infinite && after.best[x] == base[x] by {
                assert(!round.marked[x]);
            }
            assert forall|x: usize| #[trigger] after.connections.contains_key(x) implies x
                < stop_count && after.marked[x as int] by {
                if x != stop {
                    assert(round.connections.contains_key(x));
                }
            }
        }
    }
}

/// Changing the trip keeps it a trip that was boarded well.
pub proof fn lemma_board(
    routes: &RoutesData,
    r: usize,
    previous: Seq<Time>,
    from: int,
    position: int,
    riding: Riding,
)
    requires
        0 <= from <= position,
        boarded_well(routes, r, previous, riding, from, position),
    ensures
        boarded_well(
            routes,
            r,
            previous,
            board(routes, r, position, previous, riding),
            from,
            position + 1,
        ),
{
    let route = routes.routes@[r as int];
    let stop = routes.stops_of(route)[position];
    let reached = previous[stop as int];
    let next = board(routes, r, position, previous, riding);
    if reached.at_most(riding_arrival(routes, route, position, riding)) {
        lemma_departing(routes, route, position, reached, 0);
        if let Some(trip) = routes.earliest_departing(route, position, reached) {
            assert(next == Some((trip as usize, stop)));
            assert(reached.before(routes.stop_time(route, trip, position).departure_time));
        }
    } else {
        if let Some((trip, boarded)) = riding {
            let i = choose|i: int|
                from <= i < position && routes.stops_of(route)[i] == boarded
                    && previous[boarded as int].before(
                    (#[trigger] routes.stop_time(route, trip as int, i)).departure_time,
                );
            assert(from <= i < position + 1);
        }
    }
}

/// The scan of a route keeps the round well.
pub proof fn lemma_ride_along(
    routes: &RoutesData,
    stops: &StopsData,
    start: Place,
    limit: int,
    target: usize,
    previous: Seq<Time>,
    base: Seq<Time>,
    r: usize,
    from: int,
    upto: int,
    round: Round,
)
    requires
        routes.well_formed(stops.stops@.len() as int),
        r < routes.routes@.len(),
        0 <= from,
        upto <= routes.routes@[r as int].number_of_stops,
        target < stops.stops@.len(),
        previous.len() == stops.stops@.len(),
        limit >= 1,
        sound(routes, stops, start, previous, limit - 1),
        scanned_well(routes, stops, start, limit, previous, base, round),
    ensures
        scanned_well(
            routes,
            stops,
            start,
            limit,
            previous,
            base,
            ride_along(routes, r, target, previous, from, upto, round).0,
        ),
        boarded_well(
            routes,
            r,
            previous,
            ride_along(routes, r, target, previous, from, upto, round).1,
            from,
            upto,
        ),
    decreases upto - from,
{
    if upto > from {
        lemma_ride_along(
            routes,
            stops,
            start,
            limit,
            target,
            previous,
            base,
            r,
            from,
            upto - 1,
            round,
        );
        let (before, riding) = ride_along(routes, r, target, previous, from, upto - 1, round);
        lemma_alight(
            routes,
            stops,
            start,
            limit,
            target,
            previous,
            base,
            r,
            from,
            upto - 1,
            riding,
            before,
        );
        lemma_board(routes, r, previous, from, upto - 1, riding);
    }
}

/// The scan of the routes keeps the round well.
pub proof fn lemma_scan_routes(
    routes: &RoutesData,
    stops: &StopsData,
    start: Place,
    limit: int,
    target: usize,
    previous: Seq<Time>,
    marked: Seq<bool>,
    base: Seq<Time>,
    upto: int,
    round: Round,
)
    requires
        routes.well_formed(stops.stops@.len() as int),
        0 <= upto <= routes.routes@.len(),
        target < stops.stops@.len(),
        previous.len() == stops.stops@.len(),
        limit >= 1,
        sound(routes, stops, start, previous, limit - 1),
        scanned_well(routes, stops, start, limit, previous, base, round),
    ensures
        scanned_well(
            routes,
            stops,
            start,
            limit,
            previous,
            base,
            scan_routes(routes, target, previous, marked, upto, round),
        ),
    decreases upto,
{
    if upto > 0 {
        lemma_scan_routes(
            routes,
            stops,
            start,
            limit,
            target,
            previous,
            marked,
            base,
            upto - 1,
            round,
        );
        let before = scan_routes(routes, target, previous, marked, upto - 1, round);
        let route = routes.routes@[upto - 1];
        assert(routes.routes.len() == routes.routes@.len());
        crate::engine::lemma_first_marked(routes, route, marked, 0);
        if let Some(from) = first_marked(routes, route, marked, 0) {
            lemma_ride_along(
                routes,
                stops,
                start,
                limit,
                target,
                previous,
                base,
                (upto - 1) as usize,
                from,
                route.number_of_stops as int,
                before,
            );
        }
    }
}

/// A round that has reached nothing is well.
pub proof fn lemma_fresh(
    routes: &RoutesData,
    stops: &StopsData,
    start: Place,
    limit: int,
    previous: Seq<Time>,
    base: Seq<Time>,
)
    requires
        base.len() == stops.stops@.len(),
    ensures
        scanned_well(routes, stops, start, limit, previous, base, fresh(stops.stops@.len(), base)),
{
}

} // verus!
