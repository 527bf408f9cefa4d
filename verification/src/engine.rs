//! The query engine: it runs the rounds of `crate::rounds` on dense per-stop arrays.

use std::collections::HashMap;
use vstd::prelude::*;
use vstd::std_specs::hash::group_hash_axioms;

use crate::rounds::{
    alight, answers, board, first_marked, fresh, next_round, ride_along, round_at, scan_routes,
    start, walk_all, walk_along, Connection, Riding, Round,
};
use crate::shared::{
    lemma_trip_block, network_well_formed, Route, RoutesData, StopTime, StopsData,
};
use crate::time::Time;

verus! {

broadcast use group_hash_axioms;

/// The arrays that a round works on, one entry per stop.
struct Scratch {
    labels: Vec<Time>,
    best: Vec<Time>,
    marked: Vec<bool>,
    connections: HashMap<usize, Connection>,
}

impl View for Scratch {
    type V = Round;

    closed spec fn view(&self) -> Round {
        Round {
            labels: self.labels@,
            best: self.best@,
            marked: self.marked@,
            connections: self.connections@,
        }
    }
}

/// The sum of the ranks of `times`: it falls whenever one of them gets earlier.
pub open spec fn total_rank(times: Seq<Time>) -> int
    decreases times.len(),
{
    if times.len() == 0 {
        0
    } else {
        total_rank(times.drop_last()) + times.last().rank()
    }
}

/// Replacing one time changes the total rank by the difference of the two ranks.
pub proof fn lemma_total_rank_update(times: Seq<Time>, i: int, time: Time)
    requires
        0 <= i < times.len(),
    ensures
        total_rank(times.update(i, time)) == total_rank(times) - times[i].rank() + time.rank(),
        total_rank(times) >= 0,
    decreases times.len(),
{
    lemma_total_rank_bounds(times);
    if i == times.len() - 1 {
        assert(times.update(i, time).drop_last() =~= times.drop_last());
    } else {
        assert(times.update(i, time).drop_last() =~= times.drop_last().update(i, time));
        lemma_total_rank_update(times.drop_last(), i, time);
    }
}

/// The total rank is never negative.
pub proof fn lemma_total_rank_bounds(times: Seq<Time>)
    ensures
        total_rank(times) >= 0,
    decreases times.len(),
{
    if times.len() > 0 {
        lemma_total_rank_bounds(times.drop_last());
    }
}

/// A vector of `count` copies of `time`.
fn filled_times(count: usize, time: Time) -> (times: Vec<Time>)
    ensures
        times@ == Seq::new(count as nat, |x: int| time),
{
    let mut times: Vec<Time> = Vec::new();
    while times.len() < count
        invariant
            times@.len() <= count,
            forall|x: int| 0 <= x < times@.len() ==> times@[x] == time,
        decreases count - times@.len(),
    {
        times.push(time);
    }
    assert(times@ =~= Seq::new(count as nat, |x: int| time));
    times
}

/// A vector of `count` times `false`.
fn unmarked(count: usize) -> (marks: Vec<bool>)
    ensures
        marks@ == Seq::new(count as nat, |x: int| false),
{
    let mut marks: Vec<bool> = Vec::new();
    while marks.len() < count
        invariant
            marks@.len() <= count,
            forall|x: int| 0 <= x < marks@.len() ==> !marks@[x],
        decreases count - marks@.len(),
    {
        marks.push(false);
    }
    assert(marks@ =~= Seq::new(count as nat, |x: int| false));
    marks
}

/// What `first_marked` finds: a marked stop with none before it, or that there is none.
pub proof fn lemma_first_marked(routes: &RoutesData, route: Route, marked: Seq<bool>, from: int)
    requires
        0 <= from,
    ensures
        match first_marked(routes, route, marked, from) {
            Some(p) => {
                &&& from <= p < route.number_of_stops
                &&& marked[routes.stops_of(route)[p] as int]
                &&& forall|j: int| from <= j < p ==> !marked[#[trigger] routes.stops_of(route)[j] as int]
            },
            None => forall|j: int|
                from <= j < route.number_of_stops ==> !marked[#[trigger] routes.stops_of(
                    route,
                )[j] as int],
        },
    decreases route.number_of_stops - from,
{
    if from < route.number_of_stops && !marked[routes.stops_of(route)[from] as int] {
        lemma_first_marked(routes, route, marked, from + 1);
    }
}

/// `queue` names for each route the first position whose stop is marked, and nothing for
/// a route without a marked stop.
pub open spec fn is_queue(routes: &RoutesData, marked: Seq<bool>, queue: Seq<Option<usize>>) -> bool {
    forall|r: int|
        0 <= r < routes.routes@.len() ==> match first_marked(routes, routes.routes@[r], marked, 0) {
            Some(p) => (#[trigger] queue[r]) == Some(p as usize),
            None => queue[r] is None,
        }
}

/// The queue of a round: for each route the first position whose stop is marked, found by
/// going through the marked stops and the routes that serve them.
fn build_queue(routes: &RoutesData, stops: &StopsData, marked: &Vec<bool>) -> (queue: Vec<
    Option<usize>,
>)
    requires
        network_well_formed(routes, stops),
        marked@.len() == stops.stops@.len(),
    ensures
        queue@.len() == routes.routes@.len(),
        is_queue(routes, marked@, queue@),
{
    let route_count = routes.routes.len();
    let mut queue: Vec<Option<usize>> = Vec::new();
    while queue.len() < route_count
        invariant
            queue@.len() <= route_count,
            forall|r: int| 0 <= r < queue@.len() ==> queue@[r] is None,
        decreases route_count - queue@.len(),
    {
        queue.push(None);
    }
    let mut p: usize = 0;
    while p < marked.len()
        invariant
            network_well_formed(routes, stops),
            marked@.len() == stops.stops@.len(),
            route_count == routes.routes@.len(),
            queue@.len() == route_count,
            p <= marked@.len(),
            forall|r: int|
                0 <= r < route_count ==> (#[trigger] queue@[r] matches Some(j) ==> {
                    &&& j < routes.routes@[r].number_of_stops
                    &&& marked@[routes.stops_of(routes.routes@[r])[j as int] as int]
                }),
            forall|r: int, j: int|
                0 <= r < route_count && 0 <= j < routes.routes@[r].number_of_stops && (
                #[trigger] routes.stops_of(routes.routes@[r])[j]) < p && marked@[routes.stops_of(
                    routes.routes@[r],
                )[j] as int] ==> (queue@[r] matches Some(first) && first <= j),
        decreases marked@.len() - p,
    {
        if marked[p] {
            let serving = stops.get_routes(&p);
            let mut index: usize = 0;
            while index < serving.len()
                invariant
                    network_well_formed(routes, stops),
                    marked@.len() == stops.stops@.len(),
                    route_count == routes.routes@.len(),
                    queue@.len() == route_count,
                    p < marked@.len(),
                    marked@[p as int],
                    serving@ == stops.routes_of(stops.stops@[p as int]),
                    index <= serving@.len(),
                    forall|r: int|
                        0 <= r < route_count ==> (#[trigger] queue@[r] matches Some(j) ==> {
                            &&& j < routes.routes@[r].number_of_stops
                            &&& marked@[routes.stops_of(routes.routes@[r])[j as int] as int]
                        }),
                    forall|r: int, j: int|
                        0 <= r < route_count && 0 <= j < routes.routes@[r].number_of_stops && (
                        #[trigger] routes.stops_of(routes.routes@[r])[j]) < p
                            && marked@[routes.stops_of(routes.routes@[r])[j] as int] ==> (
                        queue@[r] matches Some(first) && first <= j),
                    forall|r: int, j: int, i: int|
                        0 <= r < route_count && 0 <= j < routes.routes@[r].number_of_stops && (
                        #[trigger] routes.stops_of(routes.routes@[r])[j]) == p && 0 <= i < index
                            && (#[trigger] serving@[i]) == r ==> (queue@[r] matches Some(first)
                            && first <= j),
                decreases serving@.len() - index,
            {
                let r = serving[index];
                proof {
                    let stop = stops.stops@[p as int];
                    assert(serving@[index as int] == stops.stop_routes@[
                        stop.stop_routes_index_start + index]);
                    assert(r < route_count);
                    assert(stops.lists(p as int, r as int));
                    assert(routes.visits(r as int, p as int));
                    let j = choose|j: int|
                        0 <= j < routes.routes@[r as int].number_of_stops && (
                        #[trigger] routes.stops_of(routes.routes@[r as int])[j]) == p;
                    assert(routes.stops_of(routes.routes@[r as int]).contains(p));
                }
                let route = &routes.routes[r];
                let found = routes.get_stop_sequence(route, &p);
                let position = found.unwrap();
                let earlier = match queue[r] {
                    Some(other) => position < other,
                    None => true,
                };
                if earlier {
                    queue.set(r, Some(position));
                }
                index += 1;
            }
            proof {
                assert forall|r: int, j: int|
                    0 <= r < route_count && 0 <= j < routes.routes@[r].number_of_stops && (
                    #[trigger] routes.stops_of(routes.routes@[r])[j]) < p + 1
                        && marked@[routes.stops_of(routes.routes@[r])[j] as int] implies (
                    queue@[r] matches Some(first) && first <= j) by {
                    let q = routes.stops_of(routes.routes@[r])[j];
                    if q == p {
                        assert(routes.visits(r, p as int));
                        assert(stops.lists(p as int, r));
                        let i = choose|i: int|
                            0 <= i < stops.stops@[p as int].stop_routes_count && (
                            #[trigger] stops.routes_of(stops.stops@[p as int])[i]) == r;
                        assert(serving@[i] == r);
                    }
                }
            }
        }
        p += 1;
    }
    proof {
        assert forall|r: int| 0 <= r < routes.routes@.len() implies match first_marked(
            routes,
            routes.routes@[r],
            marked@,
            0,
        ) {
            Some(p) => (#[trigger] queue@[r]) == Some(p as usize),
            None => queue@[r] is None,
        } by {
            let route = routes.routes@[r];
            lemma_first_marked(routes, route, marked@, 0);
            assert(routes.holds(route));
            match first_marked(routes, route, marked@, 0) {
                Some(first) => {
                    let q = routes.stops_of(route)[first];
                    assert(q == routes.route_stops@[route.route_stops_start_index + first]);
                    assert(q < marked@.len());
                },
                None => {
                    if queue@[r] is Some {
                        let j = queue@[r].unwrap();
                        assert(marked@[routes.stops_of(route)[j as int] as int]);
                    }
                },
            }
        }
    }
    queue
}

/// The total rank of the best arrivals, and one more where a stop is marked. No step of a
/// round raises it, so a round that marks a stop has lowered the total rank.
pub open spec fn weight(round: Round) -> int {
    total_rank(round.best) + if round.has_marks() {
        1int
    } else {
        0int
    }
}

/// The trip that the scan rides, without its stop times.
pub open spec fn riding_of(riding: Option<(usize, &[StopTime], usize)>) -> Riding {
    match riding {
        Some((trip, _, boarded)) => Some((trip, boarded)),
        None => None,
    }
}

/// Scans route `r` from position `from` to its end.
fn scan_route(
    routes: &RoutesData,
    r: usize,
    from: usize,
    target: usize,
    previous: &Vec<Time>,
    scratch: &mut Scratch,
)
    requires
        routes.well_formed(previous@.len() as int),
        r < routes.routes@.len(),
        from < routes.routes@[r as int].number_of_stops,
        target < previous@.len(),
        old(scratch)@.sized(previous@.len() as int),
    ensures
        final(scratch)@ == ride_along(
            routes,
            r,
            target,
            previous@,
            from as int,
            routes.routes@[r as int].number_of_stops as int,
            old(scratch)@,
        ).0,
        final(scratch)@.sized(previous@.len() as int),
        weight(final(scratch)@) <= weight(old(scratch)@),
{
    let route = &routes.routes[r];
    let route_stops = routes.get_route_stops(route);
    let mut riding: Option<(usize, &[StopTime], usize)> = None;
    let mut position: usize = from;
    while position < route.number_of_stops
        invariant
            routes.well_formed(previous@.len() as int),
            r < routes.routes@.len(),
            *route == routes.routes@[r as int],
            route_stops@ == routes.stops_of(*route),
            from <= position <= route.number_of_stops,
            target < previous@.len(),
            scratch@.sized(previous@.len() as int),
            weight(scratch@) <= weight(old(scratch)@),
            (scratch@, riding_of(riding)) == ride_along(
                routes,
                r,
                target,
                previous@,
                from as int,
                position as int,
                old(scratch)@,
            ),
            riding matches Some((trip, times, _)) ==> trip < route.number_of_trips && times@
                == routes.trip_of(*route, trip as int),
        decreases route.number_of_stops - position,
    {
        let ghost before = scratch@;
        assert(routes.holds(*route));
        let stop = route_stops[position];
        assert(stop == routes.route_stops@[route.route_stops_start_index + position]);
        proof {
            if let Some((trip, times, _)) = riding {
                lemma_trip_block(
                    trip as int,
                    route.number_of_trips as int,
                    route.number_of_stops as int,
                );
                assert(times@[position as int] == routes.stop_time(
                    *route,
                    trip as int,
                    position as int,
                ));
            }
        }
        if let Some((trip, times, boarded)) = riding {
            let arrival = times[position].arrival_time;
            let bound = scratch.best[stop].min(scratch.best[target]);
            if arrival < bound {
                proof {
                    lemma_total_rank_update(scratch.best@, stop as int, arrival);
                }
                scratch.labels.set(stop, arrival);
                scratch.best.set(stop, arrival);
                scratch.marked.set(stop, true);
                scratch.connections.insert(
                    stop,
                    Connection::Connection {
                        route: r,
                        trip_number: trip,
                        boarded_at_stop: boarded,
                        exited_at_stop: stop,
                    },
                );
                assert(scratch@.marked[stop as int]);
            }
        }
        assert(scratch@ == alight(routes, r, target, position as int, riding_of(riding), before));
        let reached = previous[stop];
        let now = match riding {
            Some((_, times, _)) => times[position].arrival_time,
            None => Time::Infinite,
        };
        let ghost ridden = riding_of(riding);
        if reached <= now {
            riding =
            match routes.get_earliest_departing_trip(route, &position, &reached) {
                Some((trip, times)) => Some((trip, times, stop)),
                None => None,
            };
        }
        assert(riding_of(riding) == board(routes, r, position as int, previous@, ridden));
        position += 1;
    }
}

/// Scans every route that the queue names, in the order of the route indices.
fn scan_all(
    routes: &RoutesData,
    queue: &Vec<Option<usize>>,
    target: usize,
    previous: &Vec<Time>,
    Ghost(marked): Ghost<Seq<bool>>,
    scratch: &mut Scratch,
)
    requires
        routes.well_formed(previous@.len() as int),
        target < previous@.len(),
        old(scratch)@.sized(previous@.len() as int),
        queue@.len() == routes.routes@.len(),
        is_queue(routes, marked, queue@),
    ensures
        final(scratch)@ == scan_routes(
            routes,
            target,
            previous@,
            marked,
            routes.routes@.len() as int,
            old(scratch)@,
        ),
        final(scratch)@.sized(previous@.len() as int),
        weight(final(scratch)@) <= weight(old(scratch)@),
{
    let mut r: usize = 0;
    while r < routes.routes.len()
        invariant
            routes.well_formed(previous@.len() as int),
            target < previous@.len(),
            queue@.len() == routes.routes@.len(),
            is_queue(routes, marked, queue@),
            r <= routes.routes@.len(),
            scratch@.sized(previous@.len() as int),
            weight(scratch@) <= weight(old(scratch)@),
            scratch@ == scan_routes(routes, target, previous@, marked, r as int, old(scratch)@),
        decreases routes.routes@.len() - r,
    {
        proof {
            lemma_first_marked(routes, routes.routes@[r as int], marked, 0);
            assert(queue@[r as int] is Some || queue@[r as int] is None);
        }
        if let Some(from) = queue[r] {
            scan_route(routes, r, from, target, previous, scratch);
        }
        r += 1;
    }
}

/// Walks the foot-paths that leave stop `p`, which was reached at `arrival`.
fn walk_from(
    stops: &StopsData,
    p: usize,
    arrival: Time,
    scratch: &mut Scratch,
    walked: &mut Vec<bool>,
)
    requires
        p < stops.stops@.len(),
        stops.holds(stops.stops@[p as int]),
        forall|i: int|
            0 <= i < stops.transfers@.len() ==> (#[trigger] stops.transfers@[i]).target
                < stops.stops@.len(),
        old(scratch)@.sized(stops.stops@.len() as int),
        old(walked)@.len() == stops.stops@.len(),
    ensures
        (final(scratch)@, final(walked)@) == walk_along(
            stops,
            p,
            arrival,
            stops.stops@[p as int].transfers_count as int,
            old(scratch)@,
            old(walked)@,
        ),
        final(scratch)@.sized(stops.stops@.len() as int),
        final(walked)@.len() == stops.stops@.len(),
        final(scratch)@.best == old(scratch)@.best,
        final(scratch)@.marked == old(scratch)@.marked,
        forall|x: int|
            0 <= x < stops.stops@.len() && #[trigger] final(walked)@[x] ==> old(walked)@[x]
                || stops.stops@[p as int].transfers_count > 0,
{
    let stop = &stops.stops[p];
    let start = stop.transfers_index_start;
    let mut transfer_index: usize = 0;
    while transfer_index < stop.transfers_count
        invariant
            p < stops.stops@.len(),
            *stop == stops.stops@[p as int],
            stops.holds(*stop),
            start == stop.transfers_index_start,
            forall|i: int|
                0 <= i < stops.transfers@.len() ==> (#[trigger] stops.transfers@[i]).target
                    < stops.stops@.len(),
            transfer_index <= stop.transfers_count,
            scratch@.sized(stops.stops@.len() as int),
            walked@.len() == stops.stops@.len(),
            scratch@.best == old(scratch)@.best,
            scratch@.marked == old(scratch)@.marked,
            (scratch@, walked@) == walk_along(
                stops,
                p,
                arrival,
                transfer_index as int,
                old(scratch)@,
                old(walked)@,
            ),
            forall|x: int|
                0 <= x < stops.stops@.len() && #[trigger] walked@[x] ==> old(walked)@[x]
                    || stop.transfers_count > 0,
        decreases stop.transfers_count - transfer_index,
    {
        let transfer = &stops.transfers[start + transfer_index];
        assert(*transfer == stops.transfers_of(*stop)[transfer_index as int]);
        let arrival_by_foot = arrival + transfer.time;
        let current_arrival_target = scratch.labels[transfer.target];
        if arrival_by_foot < current_arrival_target {
            scratch.labels.set(transfer.target, arrival_by_foot);
            scratch.connections.insert(
                transfer.target,
                Connection::FootPath { source: p, transfer: transfer_index },
            );
            walked.set(transfer.target, true);
        }
        transfer_index += 1;
    }
}

/// Lets every stop that a ride reached in this round walk its foot-paths once.
fn walk(stops: &StopsData, scratch: &mut Scratch, walked: &mut Vec<bool>)
    requires
        forall|s: int| 0 <= s < stops.stops@.len() ==> stops.holds(#[trigger] stops.stops@[s]),
        forall|i: int|
            0 <= i < stops.transfers@.len() ==> (#[trigger] stops.transfers@[i]).target
                < stops.stops@.len(),
        old(scratch)@.sized(stops.stops@.len() as int),
        old(walked)@.len() == stops.stops@.len(),
        forall|x: int| 0 <= x < stops.stops@.len() ==> !old(walked)@[x],
    ensures
        (final(scratch)@, final(walked)@) == walk_all(
            stops,
            stops.stops@.len() as int,
            old(scratch)@,
            old(walked)@,
        ),
        final(scratch)@.sized(stops.stops@.len() as int),
        final(walked)@.len() == stops.stops@.len(),
        final(scratch)@.best == old(scratch)@.best,
        final(scratch)@.marked == old(scratch)@.marked,
        forall|x: int|
            0 <= x < stops.stops@.len() && #[trigger] final(walked)@[x] ==> old(
                scratch,
            )@.has_marks(),
{
    let mut p: usize = 0;
    while p < stops.stops.len()
        invariant
            forall|s: int| 0 <= s < stops.stops@.len() ==> stops.holds(#[trigger] stops.stops@[s]),
            forall|i: int|
                0 <= i < stops.transfers@.len() ==> (#[trigger] stops.transfers@[i]).target
                    < stops.stops@.len(),
            p <= stops.stops@.len(),
            scratch@.sized(stops.stops@.len() as int),
            walked@.len() == stops.stops@.len(),
            scratch@.best == old(scratch)@.best,
            scratch@.marked == old(scratch)@.marked,
            (scratch@, walked@) == walk_all(stops, p as int, old(scratch)@, old(walked)@),
            forall|x: int|
                0 <= x < stops.stops@.len() && #[trigger] walked@[x] ==> old(scratch)@.has_marks(),
        decreases stops.stops@.len() - p,
    {
        if scratch.marked[p] {
            assert(old(scratch)@.marked[p as int]);
            let arrival = scratch.labels[p];
            walk_from(stops, p, arrival, scratch, walked);
        }
        p += 1;
    }
}

/// Adds the stops walked to to the marked stops, and tells whether any stop is marked.
fn merge_marks(marked: &mut Vec<bool>, walked: &Vec<bool>) -> (any: bool)
    requires
        old(marked)@.len() == walked@.len(),
    ensures
        final(marked)@ == Seq::new(walked@.len(), |x: int| old(marked)@[x] || walked@[x]),
        any == exists|x: int| 0 <= x < walked@.len() && #[trigger] final(marked)@[x],
{
    let mut any = false;
    let mut x: usize = 0;
    while x < walked.len()
        invariant
            marked@.len() == walked@.len(),
            old(marked)@.len() == walked@.len(),
            x <= walked@.len(),
            forall|y: int|
                0 <= y < x ==> (#[trigger] marked@[y]) == (old(marked)@[y] || walked@[y]),
            forall|y: int| x <= y < walked@.len() ==> (#[trigger] marked@[y]) == old(marked)@[y],
            any == exists|y: int| 0 <= y < x && #[trigger] marked@[y],
        decreases walked@.len() - x,
    {
        if walked[x] {
            marked.set(x, true);
        }
        if marked[x] {
            any = true;
        }
        x += 1;
    }
    assert(marked@ =~= Seq::new(walked@.len(), |x: int| old(marked)@[x] || walked@[x]));
    any
}

/// A copy of `times`.
fn copy_times(times: &Vec<Time>) -> (copy: Vec<Time>)
    ensures
        copy@ == times@,
{
    let mut copy: Vec<Time> = Vec::new();
    while copy.len() < times.len()
        invariant
            copy@.len() <= times@.len(),
            forall|x: int| 0 <= x < copy@.len() ==> copy@[x] == times@[x],
        decreases times@.len() - copy@.len(),
    {
        copy.push(times[copy.len()]);
    }
    assert(copy@ =~= times@);
    copy
}

/// What a query found: the labels of every round from round zero on, and the connections of
/// every round from round one on.
pub struct QueryResult {
    /// `labels_by_round[k][x]` is the arrival that round `k` found for stop `x`, `Infinite`
    /// where it found none. Round zero holds the departure at the source.
    pub labels_by_round: Vec<Vec<Time>>,
    /// `connections_by_round[k - 1]` maps each stop that round `k` reached to the connection
    /// that reached it.
    pub connections_by_round: Vec<HashMap<usize, Connection>>,
}

/// The connections of each round as maps.
pub open spec fn maps_of(rounds: Seq<HashMap<usize, Connection>>) -> Seq<Map<usize, Connection>> {
    Seq::new(rounds.len(), |k: int| rounds[k]@)
}

/// Runs the rounds of a query and returns the labels and the connections of each.
///
/// The rounds go on as long as a round marks a stop; the first round that marks none ends
/// the query and is not returned.
pub fn query(
    source: usize,
    target: usize,
    departure: &Time,
    routes: &RoutesData,
    stops: &StopsData,
) -> (result: QueryResult)
    requires
        network_well_formed(routes, stops),
        source < stops.stops@.len(),
        target < stops.stops@.len(),
    ensures
        answers(
            routes,
            stops,
            source,
            target,
            *departure,
            maps_of(result.connections_by_round@),
        ),
        result.labels_by_round@.len() == result.connections_by_round@.len() + 1,
        forall|k: nat|
            k < result.labels_by_round@.len() ==> result.labels_by_round@[k as int]@
                == (#[trigger] round_at(routes, stops, source, target, *departure, k)).labels,
        forall|k: int|
            0 <= k < result.labels_by_round@.len() ==> (#[trigger] result.labels_by_round@[k])@.len()
                == stops.stops@.len(),
{
    let stop_count = stops.stops.len();
    let mut labels = filled_times(stop_count, Time::Infinite);
    labels.set(source, *departure);
    let mut best = copy_times(&labels);
    let mut marked = unmarked(stop_count);
    marked.set(source, true);
    let mut labels_by_round: Vec<Vec<Time>> = Vec::new();
    labels_by_round.push(copy_times(&labels));
    let mut connections_by_round: Vec<HashMap<usize, Connection>> = Vec::new();
    let ghost mut k: nat = 0;
    proof {
        let first = start(stop_count as nat, source, *departure);
        assert(labels@ =~= first.labels);
        assert(best@ =~= first.best);
        assert(marked@ =~= first.marked);
    }
    let mut proceed = true;
    while proceed
        invariant
            network_well_formed(routes, stops),
            source < stops.stops@.len(),
            target < stops.stops@.len(),
            stop_count == stops.stops@.len(),
            labels@ == round_at(routes, stops, source, target, *departure, k).labels,
            best@ == round_at(routes, stops, source, target, *departure, k).best,
            marked@ == round_at(routes, stops, source, target, *departure, k).marked,
            labels@.len() == stop_count,
            best@.len() == stop_count,
            marked@.len() == stop_count,
            connections_by_round@.len() == k,
            labels_by_round@.len() == k + 1,
            forall|j: nat|
                1 <= j <= k ==> {
                    let round = #[trigger] round_at(routes, stops, source, target, *departure, j);
                    round.has_marks() && connections_by_round@[j - 1]@ == round.connections
                },
            forall|j: nat|
                j <= k ==> labels_by_round@[j as int]@ == (#[trigger] round_at(
                    routes,
                    stops,
                    source,
                    target,
                    *departure,
                    j,
                )).labels,
            !proceed ==> !round_at(
                routes,
                stops,
                source,
                target,
                *departure,
                k + 1,
            ).has_marks(),
        decreases
                total_rank(best@) + if proceed {
                    1int
                } else {
                    0int
                },
    {
        let ghost previous = round_at(routes, stops, source, target, *departure, k);
        let queue = build_queue(routes, stops, &marked);
        let mut current = Scratch {
            labels: filled_times(stop_count, Time::Infinite),
            best: copy_times(&best),
            marked: unmarked(stop_count),
            connections: HashMap::new(),
        };
        let ghost empty = fresh(stop_count as nat, previous.best);
        proof {
            assert(current@.labels =~= empty.labels);
            assert(current@.marked =~= empty.marked);
            assert(current@.connections =~= empty.connections);
            assert(current@ == empty);
            assert(!empty.has_marks());
            lemma_total_rank_bounds(best@);
        }
        scan_all(routes, &queue, target, &labels, Ghost(marked@), &mut current);
        let ghost scanned = current@;
        let mut walked = unmarked(stop_count);
        walk(stops, &mut current, &mut walked);
        let any = merge_marks(&mut current.marked, &walked);
        proof {
            let next = next_round(routes, stops, target, previous);
            assert(current@.marked =~= next.marked);
            assert(current@ == next);
            assert(next == round_at(routes, stops, source, target, *departure, k + 1));
            if any {
                let x = choose|x: int| 0 <= x < stop_count && #[trigger] current@.marked[x];
                assert(scanned.marked[x] || walked@[x]);
                assert(scanned.has_marks());
                assert(next.has_marks());
                assert(weight(scanned) <= weight(empty));
                assert(weight(empty) == total_rank(best@));
                assert(weight(scanned) == total_rank(scanned.best) + 1);
                assert(current@.best == scanned.best);
                lemma_total_rank_bounds(current@.best);
            } else {
                if next.has_marks() {
                    let x = choose|x: int| 0 <= x < next.marked.len() && #[trigger] next.marked[x];
                    assert(current@.marked[x]);
                }
            }
        }
        if any {
            let Scratch { labels: found, best: improved, marked: marks, connections } = current;
            labels_by_round.push(copy_times(&found));
            connections_by_round.push(connections);
            labels = found;
            best = improved;
            marked = marks;
            proof {
                k = k + 1;
            }
        } else {
            proceed = false;
        }
    }
    proof {
        assert forall|j: int| 0 <= j < labels_by_round@.len() implies (
        #[trigger] labels_by_round@[j])@.len() == stops.stops@.len() by {
            crate::walking::lemma_round_sound(routes, stops, source, target, *departure, j as nat);
        }
        assert(maps_of(connections_by_round@).len() == k);
        assert forall|j: nat| 1 <= j <= maps_of(connections_by_round@).len() implies {
            let round = #[trigger] round_at(routes, stops, source, target, *departure, j);
            round.has_marks() && maps_of(connections_by_round@)[j - 1] == round.connections
        } by {}
    }
    QueryResult { labels_by_round, connections_by_round }
}

/// The journeys from `source` to every stop, by the number of rides they take.
///
/// Entry `k - 1` of the result maps each stop that round `k` reached to the connection that
/// reached it. The rounds go on as long as a round marks a stop; the first round that marks
/// none ends the query and is not returned.
pub fn raptor(
    source: usize,
    target: usize,
    departure: &Time,
    routes: &RoutesData,
    stops: &StopsData,
) -> (rounds: Vec<HashMap<usize, Connection>>)
    requires
        network_well_formed(routes, stops),
        source < stops.stops@.len(),
        target < stops.stops@.len(),
    ensures
        answers(routes, stops, source, target, *departure, maps_of(rounds@)),
{
    query(source, target, departure, routes, stops).connections_by_round
}

} // verus!
