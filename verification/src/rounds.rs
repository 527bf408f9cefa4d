//! What a query computes, round by round, as mathematics.
//!
//! A round scans every route that serves a stop whose label improved in the round before,
//! then lets the stops that a ride reached walk their foot-paths once. The functions here
//! say what each step does to the labels; `crate::engine` runs them.

use vstd::prelude::*;

use crate::shared::{Route, RoutesData, StopsData};
use crate::time::Time;

verus! {

/// How a stop was reached in a round.
#[derive(Clone, Copy, Debug, PartialEq, Eq, Structural)]
pub enum Connection {
    /// By riding a trip of a route from the stop where it was boarded.
    Connection { route: usize, trip_number: usize, boarded_at_stop: usize, exited_at_stop: usize },
    /// By walking from `source`, along the foot-path with index `transfer` among those that
    /// leave `source`.
    FootPath { source: usize, transfer: usize },
}

/// The labels of one round.
pub struct Round {
    /// The arrival time that this round found for each stop; `Infinite` where it found none.
    pub labels: Seq<Time>,
    /// The earliest arrival by a ride that any round so far found for each stop.
    pub best: Seq<Time>,
    /// The stops whose label this round improved.
    pub marked: Seq<bool>,
    /// For each stop that this round reached, the connection that gave it its label.
    pub connections: Map<usize, Connection>,
}

/// The trip that a scan is riding: its number in the route, and the stop where it was boarded.
pub type Riding = Option<(usize, usize)>;

impl Round {
    /// Some stop is marked.
    pub open spec fn has_marks(self) -> bool {
        exists|x: int| 0 <= x < self.marked.len() && #[trigger] self.marked[x]
    }

    /// The round keeps one entry per stop.
    pub open spec fn sized(self, stop_count: int) -> bool {
        &&& self.labels.len() == stop_count
        &&& self.best.len() == stop_count
        &&& self.marked.len() == stop_count
    }
}

/// The state before the first round: the source is reached at the departure time, and
/// nothing else is reached.
pub open spec fn start(stop_count: nat, source: usize, departure: Time) -> Round {
    Round {
        labels: Seq::new(
            stop_count,
            |x: int|
                if x == source {
                    departure
                } else {
                    Time::Infinite
                },
        ),
        best: Seq::new(
            stop_count,
            |x: int|
                if x == source {
                    departure
                } else {
                    Time::Infinite
                },
        ),
        marked: Seq::new(stop_count, |x: int| x == source),
        connections: Map::empty(),
    }
}

/// A round that has reached nothing yet and knows the arrivals `best` of earlier rounds.
pub open spec fn fresh(stop_count: nat, best: Seq<Time>) -> Round {
    Round {
        labels: Seq::new(stop_count, |x: int| Time::Infinite),
        best,
        marked: Seq::new(stop_count, |x: int| false),
        connections: Map::empty(),
    }
}

/// The arrival of the trip that is ridden at `position`; `Infinite` where none is ridden.
pub open spec fn riding_arrival(
    routes: &RoutesData,
    route: Route,
    position: int,
    riding: Riding,
) -> Time {
    match riding {
        Some((trip, _)) => routes.stop_time(route, trip as int, position).arrival_time,
        None => Time::Infinite,
    }
}

/// Leaving the ridden trip at `position` of route `r`: the stop there gets the arrival as its
/// label if that is strictly earlier than the best arrival known for the stop and than the
/// best arrival known for the target.
pub open spec fn alight(
    routes: &RoutesData,
    r: usize,
    target: usize,
    position: int,
    riding: Riding,
    round: Round,
) -> Round {
    let route = routes.routes@[r as int];
    let stop = routes.stops_of(route)[position];
    match riding {
        Some((trip, boarded)) => {
            let arrival = routes.stop_time(route, trip as int, position).arrival_time;
            if arrival.before(round.best[stop as int].earlier(round.best[target as int])) {
                Round {
                    labels: round.labels.update(stop as int, arrival),
                    best: round.best.update(stop as int, arrival),
                    marked: round.marked.update(stop as int, true),
                    connections: round.connections.insert(
                        stop,
                        Connection::Connection {
                            route: r,
                            trip_number: trip,
                            boarded_at_stop: boarded,
                            exited_at_stop: stop,
                        },
                    ),
                }
            } else {
                round
            }
        },
        None => round,
    }
}

/// The trip that is ridden on from `position` of route `r`. Where the round before reached
/// the stop no later than the ridden trip arrives there, the scan changes to the earliest
/// trip that leaves the stop strictly after that label; else it stays on its trip.
pub open spec fn board(
    routes: &RoutesData,
    r: usize,
    position: int,
    previous: Seq<Time>,
    riding: Riding,
) -> Riding {
    let route = routes.routes@[r as int];
    let stop = routes.stops_of(route)[position];
    let reached = previous[stop as int];
    if reached.at_most(riding_arrival(routes, route, position, riding)) {
        match routes.earliest_departing(route, position, reached) {
            Some(trip) => Some((trip as usize, stop)),
            None => None,
        }
    } else {
        riding
    }
}

/// The scan of route `r` over the positions from `from` up to, not including, `upto`:
/// at each position first `alight`, then `board`.
pub open spec fn ride_along(
    routes: &RoutesData,
    r: usize,
    target: usize,
    previous: Seq<Time>,
    from: int,
    upto: int,
    round: Round,
) -> (Round, Riding)
    decreases upto - from,
{
    if upto <= from {
        (round, None)
    } else {
        let (before, riding) = ride_along(routes, r, target, previous, from, upto - 1, round);
        (
            alight(routes, r, target, upto - 1, riding, before),
            board(routes, r, upto - 1, previous, riding),
        )
    }
}

/// The first position of `route`, from `from` on, whose stop is marked.
pub open spec fn first_marked(
    routes: &RoutesData,
    route: Route,
    marked: Seq<bool>,
    from: int,
) -> Option<int>
    decreases route.number_of_stops - from,
{
    if from < 0 || from >= route.number_of_stops {
        None
    } else if marked[routes.stops_of(route)[from] as int] {
        Some(from)
    } else {
        first_marked(routes, route, marked, from + 1)
    }
}

/// The round after the routes below `upto` were scanned, in the order of their indices, with
/// the labels `previous` and the marks `marked` of the round before. A route is scanned from
/// its first stop that the round before marked, and not at all where that round marked none
/// of its stops.
pub open spec fn scan_routes(
    routes: &RoutesData,
    target: usize,
    previous: Seq<Time>,
    marked: Seq<bool>,
    upto: int,
    round: Round,
) -> Round
    decreases upto,
{
    if upto <= 0 {
        round
    } else {
        let before = scan_routes(routes, target, previous, marked, upto - 1, round);
        let route = routes.routes@[upto - 1];
        match first_marked(routes, route, marked, 0) {
            Some(from) => ride_along(
                routes,
                (upto - 1) as usize,
                target,
                previous,
                from,
                route.number_of_stops as int,
                before,
            ).0,
            None => before,
        }
    }
}

/// The round and the stops walked to, after the foot-paths below `upto` of stop `p` were
/// walked from the arrival `arrival`. A foot-path gives its target a label where the walk
/// ends strictly earlier than the label that the target has in this round.
pub open spec fn walk_along(
    stops: &StopsData,
    p: usize,
    arrival: Time,
    upto: int,
    round: Round,
    walked: Seq<bool>,
) -> (Round, Seq<bool>)
    decreases upto,
{
    if upto <= 0 {
        (round, walked)
    } else {
        let (before, marks) = walk_along(stops, p, arrival, upto - 1, round, walked);
        let transfer = stops.transfers_of(stops.stops@[p as int])[upto - 1];
        let by_foot = arrival.plus(transfer.time);
        if by_foot.before(before.labels[transfer.target as int]) {
            (
                Round {
                    labels: before.labels.update(transfer.target as int, by_foot),
                    connections: before.connections.insert(
                        transfer.target,
                        Connection::FootPath { source: p, transfer: (upto - 1) as usize },
                    ),
                    ..before
                },
                marks.update(transfer.target as int, true),
            )
        } else {
            (before, marks)
        }
    }
}

/// The round and the stops walked to, after the stops below `upto` that a ride reached in
/// this round walked their foot-paths, in the order of their indices.
pub open spec fn walk_all(stops: &StopsData, upto: int, round: Round, walked: Seq<bool>) -> (
    Round,
    Seq<bool>,
)
    decreases upto,
{
    if upto <= 0 {
        (round, walked)
    } else {
        let (before, marks) = walk_all(stops, upto - 1, round, walked);
        if round.marked[upto - 1] {
            walk_along(
                stops,
                (upto - 1) as usize,
                before.labels[upto - 1],
                stops.stops@[upto - 1].transfers_count as int,
                before,
                marks,
            )
        } else {
            (before, marks)
        }
    }
}

/// The round that follows `previous`.
pub open spec fn next_round(
    routes: &RoutesData,
    stops: &StopsData,
    target: usize,
    previous: Round,
) -> Round {
    let stop_count = stops.stops@.len();
    let scanned = scan_routes(
        routes,
        target,
        previous.labels,
        previous.marked,
        routes.routes@.len() as int,
        fresh(stop_count, previous.best),
    );
    let (walked, marks) = walk_all(
        stops,
        stop_count as int,
        scanned,
        Seq::new(stop_count, |x: int| false),
    );
    Round { marked: Seq::new(stop_count, |x: int| scanned.marked[x] || marks[x]), ..walked }
}

/// Round `k` of the query from `source` to `target` that sets out at `departure`.
pub open spec fn round_at(
    routes: &RoutesData,
    stops: &StopsData,
    source: usize,
    target: usize,
    departure: Time,
    k: nat,
) -> Round
    decreases k,
{
    if k == 0 {
        start(stops.stops@.len(), source, departure)
    } else {
        next_round(
            routes,
            stops,
            target,
            round_at(routes, stops, source, target, departure, (k - 1) as nat),
        )
    }
}

/// `connections` is what the query returns: the connections of round one, two and so on, as
/// long as the round marks a stop.
pub open spec fn answers(
    routes: &RoutesData,
    stops: &StopsData,
    source: usize,
    target: usize,
    departure: Time,
    connections: Seq<Map<usize, Connection>>,
) -> bool {
    &&& forall|k: nat|
        1 <= k <= connections.len() ==> {
            let round = #[trigger] round_at(routes, stops, source, target, departure, k);
            round.has_marks() && connections[k - 1] == round.connections
        }
    &&& !round_at(
        routes,
        stops,
        source,
        target,
        departure,
        (connections.len() + 1) as nat,
    ).has_marks()
}

} // verus!
