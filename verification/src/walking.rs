//! What walking the foot-paths keeps true of a round, and what holds of every round.

use vstd::prelude::*;

use crate::journey::{
    after_leg, leg_fits, lemma_reachable_further, lemma_reachable_start, reachable, Leg, Place,
};
use crate::rounds::{
    fresh, next_round, round_at, scan_routes, start, walk_all, walk_along, Connection, Round,
};
use crate::scanning::{lemma_fresh, lemma_scan_routes, ride_mark, sound};
use crate::shared::{network_well_formed, RoutesData, StopsData};
use crate::time::Time;

verus! {

/// Stop `x` has its label from a walk: the connection names a stop that a ride reached in
/// this round and one of its foot-paths, which leads to `x`.
pub open spec fn foot_mark(stops: &StopsData, scanned: Round, round: Round, x: int) -> bool {
    &&& round.connections.contains_key(x as usize)
    &&& round.connections[x as usize] matches Connection::FootPath { source, transfer }
    &&& source < stops.stops@.len()
    &&& scanned.marked[source as int]
    &&& transfer < stops.stops@[source as int].transfers_count
    &&& stops.transfers_of(stops.stops@[source as int])[transfer as int].target == x
    &&& round.labels[x].before(Time::Infinite)
}

/// The state of a round while the foot-paths are walked. `scanned` is the round as the
/// scan of the routes left it, `marks` holds the stops walked to.
pub open spec fn walked_well(
    routes: &RoutesData,
    stops: &StopsData,
    start: Place,
    limit: int,
    scanned: Round,
    round: Round,
    marks: Seq<bool>,
) -> bool {
    let stop_count = stops.stops@.len() as int;
    &&& round.sized(stop_count)
    &&& scanned.sized(stop_count)
    &&& marks.len() == stop_count
    &&& round.best == scanned.best
    &&& round.marked == scanned.marked
    &&& sound(routes, stops, start, round.labels, limit)
    &&& forall|x: int| 0 <= x < stop_count && #[trigger] marks[x] ==> foot_mark(stops, scanned, round, x)
    &&& forall|x: int|
        0 <= x < stop_count && !(#[trigger] marks[x]) ==> {
            &&& round.labels[x] == scanned.labels[x]
            &&& round.connections.contains_key(x as usize) == scanned.connections.contains_key(
                x as usize,
            )
            &&& round.connections[x as usize] == scanned.connections[x as usize]
        }
    &&& forall|x: usize| #[trigger] round.connections.contains_key(x) ==> x < stop_count
    &&& forall|x: int| 0 <= x < stop_count ==> (#[trigger] round.labels[x]).at_most(scanned.labels[x])
}

/// Walking the foot-paths of one stop keeps the round well.
pub proof fn lemma_walk_along(
    routes: &RoutesData,
    stops: &StopsData,
    start: Place,
    limit: int,
    scanned: Round,
    p: usize,
    arrival: Time,
    upto: int,
    round: Round,
    marks: Seq<bool>,
)
    requires
        stops.well_formed(routes.routes@.len() as int),
        p < stops.stops@.len(),
        scanned.marked[p as int],
        0 <= upto <= stops.stops@[p as int].transfers_count,
        arrival.before(Time::Infinite) ==> reachable(
            routes,
            stops,
            start,
            Place { stop: p, time: arrival },
            limit,
        ),
        walked_well(routes, stops, start, limit, scanned, round, marks),
    ensures
        walked_well(
            routes,
            stops,
            start,
            limit,
            scanned,
            walk_along(stops, p, arrival, upto, round, marks).0,
            walk_along(stops, p, arrival, upto, round, marks).1,
        ),
    decreases upto,
{
    if upto > 0 {
        lemma_walk_along(routes, stops, start, limit, scanned, p, arrival, upto - 1, round, marks);
        let (before, walked) = walk_along(stops, p, arrival, upto - 1, round, marks);
        let (after, marked) = walk_along(stops, p, arrival, upto, round, marks);
        let stop = stops.stops@[p as int];
        let stop_count = stops.stops@.len() as int;
        assert(stops.stops.len() == stops.stops@.len());
        assert(stops.holds(stop));
        let transfer = stops.transfers_of(stop)[upto - 1];
        assert(transfer == stops.transfers@[stop.transfers_index_start + upto - 1]);
        assert(transfer.target < stop_count);
        let by_foot = arrival.plus(transfer.time);
        let goal = transfer.target as int;
        if by_foot.before(before.labels[goal]) {
            assert(arrival.before(Time::Infinite));
            let at = Place { stop: p, time: arrival };
            let leg = Leg::Walk { transfer: upto - 1 };
            assert(leg_fits(routes, stops, at, leg));
            lemma_reachable_further(routes, stops, start, at, limit, leg);
            assert(after_leg(routes, stops, at, leg) == Place {
                stop: transfer.target,
                time: by_foot,
            });
            assert forall|x: int|
                0 <= x < after.labels.len() && (#[trigger] after.labels[x]).before(
                    Time::Infinite,
                ) implies reachable(
                routes,
                stops,
                start,
                Place { stop: x as usize, time: after.labels[x] },
                limit,
            ) by {
                if x != goal {
                    assert(after.labels[x] == before.labels[x]);
                }
            }
            assert forall|x: int| 0 <= x < stop_count && #[trigger] marked[x] implies foot_mark(
                stops,
                scanned,
                after,
                x,
            ) by {
                if x != goal {
                    assert(walked[x]);
                    assert(foot_mark(stops, scanned, before, x));
                    assert(after.connections[x as usize] == before.connections[x as usize]);
                }
            }
            assert forall|x: int| 0 <= x < stop_count && !(#[trigger] marked[x]) implies {
                &&& after.labels[x] == scanned.labels[x]
                &&& after.connections.contains_key(x as usize)
                    == scanned.connections.contains_key(x as usize)
                &&& after.connections[x as usize] == scanned.connections[x as usize]
            } by {
                assert(!walked[x]);
                assert(x != goal);
            }
            assert forall|x: usize| #[trigger] after.connections.contains_key(x) implies x
                < stop_count by {
                if x != transfer.target {
                    assert(before.connections.contains_key(x));
                }
            }
            assert forall|x: int| 0 <= x < stop_count implies (#[trigger] after.labels[x]).at_most(
                scanned.labels[x],
            ) by {
                assert(before.labels[x].at_most(scanned.labels[x]));
            }
        }
    }
}

/// Walking the foot-paths of every stop that a ride reached keeps the round well.
pub proof fn lemma_walk_all(
    routes: &RoutesData,
    stops: &StopsData,
    start: Place,
    limit: int,
    upto: int,
    scanned: Round,
    marks: Seq<bool>,
)
    requires
        stops.well_formed(routes.routes@.len() as int),
        0 <= upto <= stops.stops@.len(),
        walked_well(routes, stops, start, limit, scanned, scanned, marks),
    ensures
        walked_well(
            routes,
            stops,
            start,
            limit,
            scanned,
            walk_all(stops, upto, scanned, marks).0,
            walk_all(stops, upto, scanned, marks).1,
        ),
    decreases upto,
{
    if upto > 0 {
        lemma_walk_all(routes, stops, start, limit, upto - 1, scanned, marks);
        let (before, walked) = walk_all(stops, upto - 1, scanned, marks);
        if scanned.marked[upto - 1] {
            assert(stops.stops.len() == stops.stops@.len());
            lemma_walk_along(
                routes,
                stops,
                start,
                limit,
                scanned,
                (upto - 1) as usize,
                before.labels[upto - 1],
                stops.stops@[upto - 1].transfers_count as int,
                before,
                walked,
            );
        }
    }
}

/// What holds of a round, with the round before it at hand.
pub open spec fn round_well(
    routes: &RoutesData,
    stops: &StopsData,
    start: Place,
    limit: int,
    previous: Round,
    round: Round,
) -> bool {
    let stop_count = stops.stops@.len() as int;
    &&& round.sized(stop_count)
    &&& sound(routes, stops, start, round.labels, limit)
    &&& forall|x: int| 0 <= x < stop_count ==> (#[trigger] round.best[x]).at_most(previous.best[x])
    &&& forall|x: usize| #[trigger] round.connections.contains_key(x) ==> x < stop_count
    &&& forall|x: int|
        0 <= x < stop_count ==> (#[trigger] round.marked[x] <==> round.connections.contains_key(
            x as usize,
        ))
    &&& forall|x: int|
        0 <= x < stop_count && #[trigger] round.marked[x] ==> round.labels[x].before(
            Time::Infinite,
        ) && match round.connections[x as usize] {
            Connection::Connection { route, trip_number, boarded_at_stop, exited_at_stop } => {
                &&& route < routes.routes@.len()
                &&& trip_number < routes.routes@[route as int].number_of_trips
                &&& boarded_at_stop < stop_count
                &&& previous.labels[boarded_at_stop as int].before(Time::Infinite)
                &&& exited_at_stop == x
                &&& round.labels[x] == round.best[x]
                &&& round.best[x].before(previous.best[x])
            },
            Connection::FootPath { source, transfer } => {
                &&& source < stop_count
                &&& round.marked[source as int]
                &&& transfer < stops.stops@[source as int].transfers_count
                &&& stops.transfers_of(stops.stops@[source as int])[transfer as int].target == x
            },
        }
    &&& forall|x: int|
        0 <= x < stop_count && !(#[trigger] round.marked[x]) ==> round.labels[x] == Time::Infinite
            && round.best[x] == previous.best[x]
}

/// A round that follows a sound round is well.
pub proof fn lemma_next_round(
    routes: &RoutesData,
    stops: &StopsData,
    start: Place,
    limit: int,
    target: usize,
    previous: Round,
)
    requires
        network_well_formed(routes, stops),
        target < stops.stops@.len(),
        limit >= 1,
        previous.sized(stops.stops@.len() as int),
        sound(routes, stops, start, previous.labels, limit - 1),
    ensures
        round_well(routes, stops, start, limit, previous, next_round(routes, stops, target, previous)),
{
    let stop_count = stops.stops@.len();
    let empty = fresh(stop_count, previous.best);
    lemma_fresh(routes, stops, start, limit, previous.labels, previous.best);
    lemma_scan_routes(
        routes,
        stops,
        start,
        limit,
        target,
        previous.labels,
        previous.marked,
        previous.best,
        routes.routes@.len() as int,
        empty,
    );
    let scanned = scan_routes(
        routes,
        target,
        previous.labels,
        previous.marked,
        routes.routes@.len() as int,
        empty,
    );
    let none = Seq::new(stop_count, |x: int| false);
    assert(walked_well(routes, stops, start, limit, scanned, scanned, none));
    lemma_walk_all(routes, stops, start, limit, stop_count as int, scanned, none);
    let (walked, marks) = walk_all(stops, stop_count as int, scanned, none);
    let next = next_round(routes, stops, target, previous);
    assert(stops.stops.len() == stops.stops@.len());
    assert forall|x: int| 0 <= x < stop_count implies (#[trigger] next.marked[x]
        <==> next.connections.contains_key(x as usize)) by {
        if marks[x] {
            assert(foot_mark(stops, scanned, walked, x));
        } else if scanned.marked[x] {
            assert(ride_mark(routes, previous.labels, previous.best, scanned, x));
        } else {
            if scanned.connections.contains_key(x as usize) {
                assert(scanned.marked[x]);
            }
        }
    }
    assert forall|x: int| 0 <= x < stop_count && #[trigger] next.marked[x] implies next.labels[x].before(
        Time::Infinite,
    ) && match next.connections[x as usize] {
        Connection::Connection { route, trip_number, boarded_at_stop, exited_at_stop } => {
            &&& route < routes.routes@.len()
            &&& trip_number < routes.routes@[route as int].number_of_trips
            &&& boarded_at_stop < stop_count
            &&& previous.labels[boarded_at_stop as int].before(Time::Infinite)
            &&& exited_at_stop == x
            &&& next.labels[x] == next.best[x]
            &&& next.best[x].before(previous.best[x])
        },
        Connection::FootPath { source, transfer } => {
            &&& source < stop_count
            &&& next.marked[source as int]
            &&& transfer < stops.stops@[source as int].transfers_count
            &&& stops.transfers_of(stops.stops@[source as int])[transfer as int].target == x
        },
    } by {
        if marks[x] {
            assert(foot_mark(stops, scanned, walked, x));
        } else {
            assert(scanned.marked[x]);
            assert(ride_mark(routes, previous.labels, previous.best, scanned, x));
        }
    }
    assert forall|x: int| 0 <= x < stop_count && !(#[trigger] next.marked[x]) implies
        next.labels[x] == Time::Infinite && next.best[x] == previous.best[x] by {
        assert(!marks[x]);
        assert(!scanned.marked[x]);
    }
    assert forall|x: int| 0 <= x < stop_count implies (#[trigger] next.best[x]).at_most(
        previous.best[x],
    ) by {
        assert(scanned.best[x].at_most(previous.best[x]));
    }
}

/// The place and time at which a query sets out.
pub open spec fn origin(source: usize, departure: Time) -> Place {
    Place { stop: source, time: departure }
}

/// Every round keeps one entry per stop, and each of its labels is the end of a journey
/// from the source with at most as many rides as the round has as its number.
pub proof fn lemma_round_sound(
    routes: &RoutesData,
    stops: &StopsData,
    source: usize,
    target: usize,
    departure: Time,
    k: nat,
)
    requires
        network_well_formed(routes, stops),
        source < stops.stops@.len(),
        target < stops.stops@.len(),
    ensures
        round_at(routes, stops, source, target, departure, k).sized(stops.stops@.len() as int),
        sound(
            routes,
            stops,
            origin(source, departure),
            round_at(routes, stops, source, target, departure, k).labels,
            k as int,
        ),
        k >= 1 ==> round_well(
            routes,
            stops,
            origin(source, departure),
            k as int,
            round_at(routes, stops, source, target, departure, (k - 1) as nat),
            round_at(routes, stops, source, target, departure, k),
        ),
    decreases k,
{
    let from = origin(source, departure);
    if k == 0 {
        let first = start(stops.stops@.len(), source, departure);
        lemma_reachable_start(routes, stops, from, 0);
        assert forall|x: int|
            0 <= x < first.labels.len() && (#[trigger] first.labels[x]).before(
                Time::Infinite,
            ) implies reachable(
            routes,
            stops,
            from,
            Place { stop: x as usize, time: first.labels[x] },
            0,
        ) by {
            assert(x == source);
        }
    } else {
        lemma_round_sound(routes, stops, source, target, departure, (k - 1) as nat);
        lemma_next_round(
            routes,
            stops,
            from,
            k as int,
            target,
            round_at(routes, stops, source, target, departure, (k - 1) as nat),
        );
    }
}

} // verus!
