//! What holds of every query.

use vstd::prelude::*;

use crate::itinerary::{leads, way_back};
use crate::journey::{lemma_reachable_earlier, reachable, Place};
use crate::rounds::{
    answers, first_marked, fresh, next_round, ride_along, round_at, scan_routes, start, walk_all,
    Connection, Round,
};
use crate::engine::lemma_first_marked;
use crate::scanning::{lemma_departing, lemma_fresh, lemma_ride_along};
use crate::shared::{network_well_formed, Route, RoutesData, StopsData};
use crate::time::Time;
use crate::walking::{lemma_round_sound, origin};

verus! {

/// A query has one answer: two runs on the same timetable with the same source, target and
/// departure return the same rounds.
pub proof fn lemma_answer_unique(
    routes: &RoutesData,
    stops: &StopsData,
    source: usize,
    target: usize,
    departure: Time,
    first: Seq<Map<usize, Connection>>,
    second: Seq<Map<usize, Connection>>,
)
    requires
        answers(routes, stops, source, target, departure, first),
        answers(routes, stops, source, target, departure, second),
    ensures
        first == second,
{
    if first.len() < second.len() {
        let k = (first.len() + 1) as nat;
        assert(round_at(routes, stops, source, target, departure, k).has_marks());
    }
    if second.len() < first.len() {
        let k = (second.len() + 1) as nat;
        assert(round_at(routes, stops, source, target, departure, k).has_marks());
    }
    assert forall|i: int| 0 <= i < first.len() implies first[i] == second[i] by {
        let k = (i + 1) as nat;
        assert(first[k - 1] == round_at(routes, stops, source, target, departure, k).connections);
        assert(second[k - 1] == round_at(routes, stops, source, target, departure, k).connections);
    }
    assert(first =~= second);
}

/// Every label is the arrival of a journey: where round `k` gives stop `x` a time, there is
/// a journey from the source, setting out at the departure, that ends at `x` at that time
/// and takes at most `k` rides.
pub proof fn lemma_labels_are_journeys(
    routes: &RoutesData,
    stops: &StopsData,
    source: usize,
    target: usize,
    departure: Time,
    k: nat,
    x: int,
)
    requires
        network_well_formed(routes, stops),
        source < stops.stops@.len(),
        target < stops.stops@.len(),
        0 <= x < stops.stops@.len(),
        round_at(routes, stops, source, target, departure, k).labels[x].before(Time::Infinite),
    ensures
        reachable(
            routes,
            stops,
            origin(source, departure),
            Place {
                stop: x as usize,
                time: round_at(routes, stops, source, target, departure, k).labels[x],
            },
            k as int,
        ),
{
    lemma_round_sound(routes, stops, source, target, departure, k);
}

/// No label is earlier than the earliest arrival: a time that no journey with at most `k`
/// rides to stop `x` beats is not beaten by the label of `x` in round `k` either.
pub proof fn lemma_labels_no_earlier_than_possible(
    routes: &RoutesData,
    stops: &StopsData,
    source: usize,
    target: usize,
    departure: Time,
    k: nat,
    x: int,
    earliest: Time,
)
    requires
        network_well_formed(routes, stops),
        source < stops.stops@.len(),
        target < stops.stops@.len(),
        0 <= x < stops.stops@.len(),
        forall|time: Time| #[trigger]
            reachable(
                routes,
                stops,
                origin(source, departure),
                Place { stop: x as usize, time },
                k as int,
            ) ==> earliest.at_most(time),
    ensures
        earliest.at_most(round_at(routes, stops, source, target, departure, k).labels[x]),
{
    let label = round_at(routes, stops, source, target, departure, k).labels[x];
    if label.before(Time::Infinite) {
        lemma_labels_are_journeys(routes, stops, source, target, departure, k, x);
    }
}

/// A target that no journey reaches is in no round of the answer.
pub proof fn lemma_unreachable_target(
    routes: &RoutesData,
    stops: &StopsData,
    source: usize,
    target: usize,
    departure: Time,
    connections: Seq<Map<usize, Connection>>,
)
    requires
        network_well_formed(routes, stops),
        source < stops.stops@.len(),
        target < stops.stops@.len(),
        answers(routes, stops, source, target, departure, connections),
        forall|time: Time, limit: int|
            time.before(Time::Infinite) ==> !#[trigger] reachable(
                routes,
                stops,
                origin(source, departure),
                Place { stop: target, time },
                limit,
            ),
    ensures
        forall|i: int|
            0 <= i < connections.len() ==> !(#[trigger] connections[i]).contains_key(target),
{
    assert forall|i: int| 0 <= i < connections.len() implies !(
    #[trigger] connections[i]).contains_key(target) by {
        let k = (i + 1) as nat;
        let round = round_at(routes, stops, source, target, departure, k);
        assert(connections[k - 1] == round.connections);
        lemma_round_sound(routes, stops, source, target, departure, k);
        if round.connections.contains_key(target) {
            assert(round.marked[target as int]);
            assert(round.labels[target as int].before(Time::Infinite));
            assert(reachable(
                routes,
                stops,
                origin(source, departure),
                Place { stop: target, time: round.labels[target as int] },
                k as int,
            ));
        }
    }
}

/// The best arrival known for a stop never gets later from round to round.
pub proof fn lemma_best_never_later(
    routes: &RoutesData,
    stops: &StopsData,
    source: usize,
    target: usize,
    departure: Time,
    j: nat,
    k: nat,
    x: int,
)
    requires
        network_well_formed(routes, stops),
        source < stops.stops@.len(),
        target < stops.stops@.len(),
        0 <= x < stops.stops@.len(),
        j <= k,
    ensures
        round_at(routes, stops, source, target, departure, k).best[x].at_most(
            round_at(routes, stops, source, target, departure, j).best[x],
        ),
    decreases k - j,
{
    if j < k {
        lemma_best_never_later(routes, stops, source, target, departure, j, (k - 1) as nat, x);
        lemma_round_sound(routes, stops, source, target, departure, k);
    }
}

/// Stop `x` got its label of round `k` from a ride, or is the source in round zero.
pub open spec fn rode_to(
    routes: &RoutesData,
    stops: &StopsData,
    source: usize,
    target: usize,
    departure: Time,
    k: nat,
    x: int,
) -> bool {
    let round = round_at(routes, stops, source, target, departure, k);
    if k == 0 {
        x == source
    } else {
        round.connections.contains_key(x as usize) && round.connections[x as usize] is Connection
    }
}

/// Round dominance for rides: the label that a ride gives a stop in a round is strictly
/// earlier than every label that a ride gave the stop in an earlier round, and than the
/// departure where the stop is the source.
pub proof fn lemma_ride_labels_improve(
    routes: &RoutesData,
    stops: &StopsData,
    source: usize,
    target: usize,
    departure: Time,
    j: nat,
    k: nat,
    x: int,
)
    requires
        network_well_formed(routes, stops),
        source < stops.stops@.len(),
        target < stops.stops@.len(),
        0 <= x < stops.stops@.len(),
        j < k,
        rode_to(routes, stops, source, target, departure, j, x),
        rode_to(routes, stops, source, target, departure, k, x),
    ensures
        round_at(routes, stops, source, target, departure, k).labels[x].before(
            round_at(routes, stops, source, target, departure, j).labels[x],
        ),
{
    assert(stops.stops.len() == stops.stops@.len());
    lemma_round_sound(routes, stops, source, target, departure, k);
    lemma_round_sound(routes, stops, source, target, departure, j);
    lemma_best_never_later(routes, stops, source, target, departure, j, (k - 1) as nat, x);
    let late = round_at(routes, stops, source, target, departure, k);
    let early = round_at(routes, stops, source, target, departure, j);
    assert(late.marked[x]);
    if j > 0 {
        assert(early.marked[x]);
    }
}

/// The stops that some round up to round `k` gave a label.
pub open spec fn reached_by(
    routes: &RoutesData,
    stops: &StopsData,
    source: usize,
    target: usize,
    departure: Time,
    k: nat,
) -> Set<int> {
    Set::new(
        |x: int|
            0 <= x < stops.stops@.len() && exists|j: nat|
                j <= k && (#[trigger] round_at(
                    routes,
                    stops,
                    source,
                    target,
                    departure,
                    j,
                )).labels[x].before(Time::Infinite),
    )
}

/// A stop that was reached stays reached: the stops reached by round `k` include those
/// reached by the round before.
pub proof fn lemma_reached_grows(
    routes: &RoutesData,
    stops: &StopsData,
    source: usize,
    target: usize,
    departure: Time,
    k: nat,
)
    requires
        k >= 1,
    ensures
        reached_by(routes, stops, source, target, departure, (k - 1) as nat).subset_of(
            reached_by(routes, stops, source, target, departure, k),
        ),
{
    assert forall|x: int|
        reached_by(routes, stops, source, target, departure, (k - 1) as nat).contains(
            x,
        ) implies reached_by(routes, stops, source, target, departure, k).contains(x) by {
        let j = choose|j: nat|
            j <= k - 1 && (#[trigger] round_at(
                routes,
                stops,
                source,
                target,
                departure,
                j,
            )).labels[x].before(Time::Infinite);
        assert(j <= k);
    }
}

/// Without foot-paths every connection of every round is a ride.
pub proof fn lemma_rides_only_without_transfers(
    routes: &RoutesData,
    stops: &StopsData,
    source: usize,
    target: usize,
    departure: Time,
    k: nat,
    x: usize,
)
    requires
        network_well_formed(routes, stops),
        source < stops.stops@.len(),
        target < stops.stops@.len(),
        stops.transfers@.len() == 0,
        k >= 1,
        round_at(routes, stops, source, target, departure, k).connections.contains_key(x),
    ensures
        round_at(routes, stops, source, target, departure, k).connections[x] is Connection,
{
    lemma_round_sound(routes, stops, source, target, departure, k);
    let round = round_at(routes, stops, source, target, departure, k);
    assert(round.marked[x as int]);
    if let Connection::FootPath { source: from, transfer } = round.connections[x] {
        assert(stops.holds(stops.stops@[from as int]));
    }
}

/// Waiting longer never gives an earlier trip: the earliest trip that leaves a stop after
/// `later` has no smaller number than the one that leaves after `sooner`, and where none
/// leaves after `sooner`, none leaves after `later`.
pub proof fn lemma_later_boarding_later_trip(
    routes: &RoutesData,
    route: Route,
    position: int,
    sooner: Time,
    later: Time,
)
    requires
        sooner.at_most(later),
    ensures
        match routes.earliest_departing(route, position, later) {
            Some(late) => routes.earliest_departing(route, position, sooner) matches Some(soon)
                && soon <= late,
            None => true,
        },
{
    lemma_departing(routes, route, position, sooner, 0);
    lemma_departing(routes, route, position, later, 0);
    if let Some(late) = routes.earliest_departing(route, position, later) {
        match routes.earliest_departing(route, position, sooner) {
            Some(soon) => {
                if soon > late {
                    assert(!sooner.before(routes.stop_time(route, late, position).departure_time));
                }
            },
            None => {
                assert(!sooner.before(routes.stop_time(route, late, position).departure_time));
            },
        }
    }
}

/// At every stop a trip arrives no later than it leaves, and it leaves a stop no later than
/// it arrives at the next.
pub open spec fn times_in_order(routes: &RoutesData, route: Route, trip: int) -> bool {
    &&& forall|s: int|
        0 <= s < route.number_of_stops ==> (#[trigger] routes.stop_time(
            route,
            trip,
            s,
        )).arrival_time.at_most(routes.stop_time(route, trip, s).departure_time)
    &&& forall|s: int|
        0 <= s < route.number_of_stops - 1 ==> (#[trigger] routes.stop_time(
            route,
            trip,
            s,
        )).departure_time.at_most(routes.stop_time(route, trip, s + 1).arrival_time)
}

/// Travel takes no negative time: a trip whose times are in order from stop to stop arrives
/// at a later stop no earlier than it arrives at, and than it leaves, an earlier one.
pub proof fn lemma_travel_times(routes: &RoutesData, route: Route, trip: int, p: int, q: int)
    requires
        times_in_order(routes, route, trip),
        0 <= p < q < route.number_of_stops,
    ensures
        routes.stop_time(route, trip, p).arrival_time.at_most(
            routes.stop_time(route, trip, q).arrival_time,
        ),
        routes.stop_time(route, trip, p).departure_time.at_most(
            routes.stop_time(route, trip, q).arrival_time,
        ),
    decreases q - p,
{
    let here = routes.stop_time(route, trip, p);
    let next = routes.stop_time(route, trip, p + 1);
    assert(here.arrival_time.at_most(here.departure_time));
    assert(here.departure_time.at_most(next.arrival_time));
    if p + 1 < q {
        lemma_travel_times(routes, route, trip, p + 1, q);
    }
}

/// No trip of the route overtakes another: of two trips, the one that leaves the first stop
/// no later leaves every stop no later.
pub open spec fn never_overtaking(routes: &RoutesData, route: Route) -> bool {
    forall|t: int, u: int, s: int|
        0 <= t < route.number_of_trips && 0 <= u < route.number_of_trips && 0 <= s
            < route.number_of_stops && routes.stop_time(route, t, 0).departure_time.at_most(
            routes.stop_time(route, u, 0).departure_time,
        ) ==> (#[trigger] routes.stop_time(route, t, s)).departure_time.at_most(
            (#[trigger] routes.stop_time(route, u, s)).departure_time,
        )
}

/// First in, first out: where the trips of a route are in the order of their departure at
/// the first stop and never overtake each other, a trip with a smaller number leaves every
/// stop no later than one with a greater number.
pub proof fn lemma_first_in_first_out(
    routes: &RoutesData,
    route: Route,
    t: int,
    u: int,
    s: int,
)
    requires
        forall|t: int, u: int|
            0 <= t <= u < route.number_of_trips ==> (#[trigger] routes.stop_time(
                route,
                t,
                0,
            )).departure_time.at_most(
                (#[trigger] routes.stop_time(route, u, 0)).departure_time,
            ),
        never_overtaking(routes, route),
        0 <= t <= u < route.number_of_trips,
        0 <= s < route.number_of_stops,
    ensures
        routes.stop_time(route, t, s).departure_time.at_most(
            routes.stop_time(route, u, s).departure_time,
        ),
{
    assert(routes.stop_time(route, t, 0).departure_time.at_most(
        routes.stop_time(route, u, 0).departure_time,
    ));
}

/// Sums do not wrap around: the sum of two times is later than neither of them, a sum with
/// `Infinite` is `Infinite`, and a finite sum is the sum of the seconds.
pub proof fn lemma_sums_saturate(a: Time, b: Time)
    ensures
        a.at_most(a.plus(b)),
        b.at_most(a.plus(b)),
        a == Time::Infinite || b == Time::Infinite ==> a.plus(b) == Time::Infinite,
        a.plus(b).before(Time::Infinite) ==> a.plus(b).rank() == a.rank() + b.rank(),
{
}

/// No trip arrives at a stop before it left an earlier one.
pub open spec fn travel_takes_time(routes: &RoutesData) -> bool {
    forall|r: int, t: int, i: int, j: int|
        0 <= r < routes.routes@.len() && 0 <= t < routes.routes@[r].number_of_trips && 0 <= i < j
            < routes.routes@[r].number_of_stops ==> (#[trigger] routes.stop_time(
            routes.routes@[r],
            t,
            i,
        )).departure_time.at_most(
            (#[trigger] routes.stop_time(routes.routes@[r], t, j)).arrival_time,
        )
}

/// With the source as the target, the scan of a route changes nothing in the first round.
proof fn lemma_still_ride_along(
    routes: &RoutesData,
    stops: &StopsData,
    source: usize,
    departure: Time,
    r: usize,
    from: int,
    upto: int,
)
    requires
        network_well_formed(routes, stops),
        travel_takes_time(routes),
        source < stops.stops@.len(),
        r < routes.routes@.len(),
        0 <= from,
        upto <= routes.routes@[r as int].number_of_stops,
    ensures
        ride_along(
            routes,
            r,
            source,
            start(stops.stops@.len(), source, departure).labels,
            from,
            upto,
            fresh(stops.stops@.len(), start(stops.stops@.len(), source, departure).best),
        ).0 == fresh(stops.stops@.len(), start(stops.stops@.len(), source, departure).best),
    decreases upto - from,
{
    let first = start(stops.stops@.len(), source, departure);
    let empty = fresh(stops.stops@.len(), first.best);
    let from_place = origin(source, departure);
    if upto > from {
        lemma_still_ride_along(routes, stops, source, departure, r, from, upto - 1);
        lemma_round_sound(routes, stops, source, source, departure, 0);
        lemma_fresh(routes, stops, from_place, 1, first.labels, first.best);
        lemma_ride_along(
            routes,
            stops,
            from_place,
            1,
            source,
            first.labels,
            first.best,
            r,
            from,
            upto - 1,
            empty,
        );
        let (before, riding) = ride_along(routes, r, source, first.labels, from, upto - 1, empty);
        assert(before == empty);
        if let Some((trip, boarded)) = riding {
            let route = routes.routes@[r as int];
            let i = choose|i: int|
                from <= i < upto - 1 && routes.stops_of(route)[i] == boarded
                    && first.labels[boarded as int].before(
                    (#[trigger] routes.stop_time(route, trip as int, i)).departure_time,
                );
            assert(routes.holds(route));
            assert(boarded == routes.route_stops@[route.route_stops_start_index + i]);
            assert(boarded == source);
            let left = routes.stop_time(route, trip as int, i);
            let arrives = routes.stop_time(route, trip as int, upto - 1);
            assert(left.departure_time.at_most(arrives.arrival_time));
            assert(empty.best[source as int] == departure);
        }
    }
}

/// With the source as the target, the scan of the routes changes nothing in the first round.
proof fn lemma_still_scan(
    routes: &RoutesData,
    stops: &StopsData,
    source: usize,
    departure: Time,
    upto: int,
)
    requires
        network_well_formed(routes, stops),
        travel_takes_time(routes),
        source < stops.stops@.len(),
        0 <= upto <= routes.routes@.len(),
    ensures
        scan_routes(
            routes,
            source,
            start(stops.stops@.len(), source, departure).labels,
            start(stops.stops@.len(), source, departure).marked,
            upto,
            fresh(stops.stops@.len(), start(stops.stops@.len(), source, departure).best),
        ) == fresh(stops.stops@.len(), start(stops.stops@.len(), source, departure).best),
    decreases upto,
{
    if upto > 0 {
        lemma_still_scan(routes, stops, source, departure, upto - 1);
        let first = start(stops.stops@.len(), source, departure);
        let route = routes.routes@[upto - 1];
        assert(routes.routes.len() == routes.routes@.len());
        lemma_first_marked(routes, route, first.marked, 0);
        if let Some(from) = first_marked(routes, route, first.marked, 0) {
            lemma_still_ride_along(
                routes,
                stops,
                source,
                departure,
                (upto - 1) as usize,
                from,
                route.number_of_stops as int,
            );
        }
    }
}

/// Where no ride reached a stop, no foot-path is walked.
pub proof fn lemma_no_ride_no_walk(stops: &StopsData, upto: int, round: Round, marks: Seq<bool>)
    requires
        0 <= upto <= round.marked.len(),
        !round.has_marks(),
    ensures
        walk_all(stops, upto, round, marks) == (round, marks),
    decreases upto,
{
    if upto > 0 {
        lemma_no_ride_no_walk(stops, upto - 1, round, marks);
        if round.marked[upto - 1] {
            assert(round.has_marks());
        }
    }
}

/// A query from a stop to itself: round zero gives the target the departure as its label,
/// and where no trip arrives before it left, the first round marks nothing, so that the
/// answer has no rounds and no rides.
pub proof fn lemma_source_is_target(
    routes: &RoutesData,
    stops: &StopsData,
    source: usize,
    departure: Time,
    connections: Seq<Map<usize, Connection>>,
)
    requires
        network_well_formed(routes, stops),
        travel_takes_time(routes),
        source < stops.stops@.len(),
        answers(routes, stops, source, source, departure, connections),
    ensures
        round_at(routes, stops, source, source, departure, 0).labels[source as int] == departure,
        !round_at(routes, stops, source, source, departure, 1).has_marks(),
        connections.len() == 0,
{
    let stop_count = stops.stops@.len();
    let first = start(stop_count, source, departure);
    let empty = fresh(stop_count, first.best);
    lemma_still_scan(routes, stops, source, departure, routes.routes@.len() as int);
    let none = Seq::new(stop_count, |x: int| false);
    assert(!empty.has_marks());
    lemma_no_ride_no_walk(stops, stop_count as int, empty, none);
    let next = next_round(routes, stops, source, first);
    assert(round_at(routes, stops, source, source, departure, 0) == first);
    assert(round_at(routes, stops, source, source, departure, 1) == next);
    assert(!next.has_marks());
    if connections.len() > 0 {
        assert(round_at(routes, stops, source, source, departure, 1).has_marks());
    }
}

/// Every connection leads back: a ride was boarded at the source in the first round, and
/// in a later round at a stop that has a connection in the round before; a walk began at
/// a stop that has a connection in the same round.
pub proof fn lemma_connections_lead_back(
    routes: &RoutesData,
    stops: &StopsData,
    source: usize,
    target: usize,
    departure: Time,
    k: nat,
    x: usize,
)
    requires
        network_well_formed(routes, stops),
        source < stops.stops@.len(),
        target < stops.stops@.len(),
        k >= 1,
        round_at(routes, stops, source, target, departure, k).connections.contains_key(x),
    ensures
        match round_at(routes, stops, source, target, departure, k).connections[x] {
            Connection::Connection { boarded_at_stop, .. } => if k == 1 {
                boarded_at_stop == source
            } else {
                round_at(
                    routes,
                    stops,
                    source,
                    target,
                    departure,
                    (k - 1) as nat,
                ).connections.contains_key(boarded_at_stop)
            },
            Connection::FootPath { source: from, .. } => round_at(
                routes,
                stops,
                source,
                target,
                departure,
                k,
            ).connections.contains_key(from),
        },
{
    lemma_round_sound(routes, stops, source, target, departure, k);
    lemma_round_sound(routes, stops, source, target, departure, (k - 1) as nat);
    let round = round_at(routes, stops, source, target, departure, k);
    let before = round_at(routes, stops, source, target, departure, (k - 1) as nat);
    assert(round.marked[x as int]);
    match round.connections[x] {
        Connection::Connection { boarded_at_stop, .. } => {
            if k > 1 {
                if !before.marked[boarded_at_stop as int] {
                    assert(before.labels[boarded_at_stop as int] == Time::Infinite);
                }
            }
        },
        Connection::FootPath { source: from, .. } => {
            assert(round.marked[from as int]);
        },
    }
}

/// No round of an answer is empty: each holds a connection for a stop.
pub proof fn lemma_rounds_not_empty(
    routes: &RoutesData,
    stops: &StopsData,
    source: usize,
    target: usize,
    departure: Time,
    connections: Seq<Map<usize, Connection>>,
    i: int,
)
    requires
        network_well_formed(routes, stops),
        source < stops.stops@.len(),
        target < stops.stops@.len(),
        answers(routes, stops, source, target, departure, connections),
        0 <= i < connections.len(),
    ensures
        exists|x: usize| x < stops.stops@.len() && #[trigger] connections[i].contains_key(x),
{
    let k = (i + 1) as nat;
    let round = round_at(routes, stops, source, target, departure, k);
    assert(connections[k - 1] == round.connections);
    assert(round.has_marks());
    lemma_round_sound(routes, stops, source, target, departure, k);
    assert(stops.stops.len() == stops.stops@.len());
    let x = choose|x: int| 0 <= x < round.marked.len() && #[trigger] round.marked[x];
    assert(connections[i].contains_key(x as usize));
}

/// Delaying the departure does not help: no label of the delayed query is earlier than
/// the earliest arrival that is possible with the departure that was not delayed. Here
/// `earliest` is a time that no journey with at most `k` rides, setting out at `sooner`,
/// beats at stop `x`.
pub proof fn lemma_delay_does_not_help(
    routes: &RoutesData,
    stops: &StopsData,
    source: usize,
    target: usize,
    sooner: Time,
    later: Time,
    k: nat,
    x: int,
    earliest: Time,
)
    requires
        network_well_formed(routes, stops),
        source < stops.stops@.len(),
        target < stops.stops@.len(),
        0 <= x < stops.stops@.len(),
        sooner.at_most(later),
        forall|time: Time| #[trigger]
            reachable(
                routes,
                stops,
                origin(source, sooner),
                Place { stop: x as usize, time },
                k as int,
            ) ==> earliest.at_most(time),
    ensures
        earliest.at_most(round_at(routes, stops, source, target, later, k).labels[x]),
{
    let label = round_at(routes, stops, source, target, later, k).labels[x];
    if label.before(Time::Infinite) {
        lemma_labels_are_journeys(routes, stops, source, target, later, k, x);
        let time = lemma_reachable_earlier(
            routes,
            stops,
            source,
            sooner,
            later,
            Place { stop: x as usize, time: label },
            k as int,
        );
        assert(reachable(
            routes,
            stops,
            origin(source, sooner),
            Place { stop: x as usize, time },
            k as int,
        ));
    }
}

/// The way back through an answer has no gap: where following the connections of an
/// answer back from a stop succeeds, the legs lead from the source to that stop, each
/// beginning where the one before it ends.
pub proof fn lemma_way_back_leads(
    routes: &RoutesData,
    stops: &StopsData,
    source: usize,
    target: usize,
    departure: Time,
    connections: Seq<Map<usize, Connection>>,
    x: usize,
    k: int,
    fuel: nat,
)
    requires
        network_well_formed(routes, stops),
        source < stops.stops@.len(),
        target < stops.stops@.len(),
        answers(routes, stops, source, target, departure, connections),
        way_back(connections, source, x, k, fuel) is Some,
    ensures
        leads(way_back(connections, source, x, k, fuel).unwrap(), source, x),
    decreases fuel,
{
    let round = round_at(routes, stops, source, target, departure, k as nat);
    assert(connections[k as nat - 1] == round.connections);
    lemma_round_sound(routes, stops, source, target, departure, k as nat);
    lemma_connections_lead_back(routes, stops, source, target, departure, k as nat, x);
    assert(round.marked[x as int]);
    let back = way_back(connections, source, x, k, fuel).unwrap();
    match round.connections[x] {
        Connection::Connection { route, trip_number, boarded_at_stop, exited_at_stop } => {
            if boarded_at_stop != source {
                lemma_way_back_leads(
                    routes,
                    stops,
                    source,
                    target,
                    departure,
                    connections,
                    boarded_at_stop,
                    k - 1,
                    (fuel - 1) as nat,
                );
                let before = way_back(
                    connections,
                    source,
                    boarded_at_stop,
                    k - 1,
                    (fuel - 1) as nat,
                ).unwrap();
                assert forall|i: int| 0 <= i < back.len() - 1 implies (
                #[trigger] back[i]).begins_at() == back[i + 1].ends_at() by {
                    if i > 0 {
                        assert(back[i] == before[i - 1]);
                        assert(back[i + 1] == before[i]);
                    }
                }
            }
        },
        Connection::FootPath { source: from, transfer } => {
            if from != source {
                lemma_way_back_leads(
                    routes,
                    stops,
                    source,
                    target,
                    departure,
                    connections,
                    from,
                    k,
                    (fuel - 1) as nat,
                );
                let before = way_back(connections, source, from, k, (fuel - 1) as nat).unwrap();
                assert forall|i: int| 0 <= i < back.len() - 1 implies (
                #[trigger] back[i]).begins_at() == back[i + 1].ends_at() by {
                    if i > 0 {
                        assert(back[i] == before[i - 1]);
                        assert(back[i + 1] == before[i]);
                    }
                }
            }
        },
    }
}

} // verus!
