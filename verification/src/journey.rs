//! Journeys through the timetable: what it means that a stop can be reached at a time.

use vstd::prelude::*;

use crate::shared::{RoutesData, StopsData};
use crate::time::Time;

verus! {

/// One leg of a journey.
pub enum Leg {
    /// A ride on trip `trip` of route `route`, from position `from` of its stop sequence to
    /// position `to`.
    Ride { route: usize, trip: usize, from: int, to: int },
    /// A walk along foot-path `transfer` of the stop where the journey stands.
    Walk { transfer: int },
}

/// Where a journey stands, and since when.
pub struct Place {
    pub stop: usize,
    pub time: Time,
}

/// Where the journey stands after leg `leg`, taken from `at`.
pub open spec fn after_leg(routes: &RoutesData, stops: &StopsData, at: Place, leg: Leg) -> Place {
    match leg {
        Leg::Ride { route, trip, from, to } => Place {
            stop: routes.stops_of(routes.routes@[route as int])[to],
            time: routes.stop_time(routes.routes@[route as int], trip as int, to).arrival_time,
        },
        Leg::Walk { transfer } => {
            let path = stops.transfers_of(stops.stops@[at.stop as int])[transfer];
            Place { stop: path.target, time: at.time.plus(path.time) }
        },
    }
}

/// Leg `leg` can be taken from `at`: a ride leaves from the stop where the journey stands,
/// strictly later than the journey got there, and leaves the trip further along the route;
/// a walk takes a foot-path of the stop.
pub open spec fn leg_fits(routes: &RoutesData, stops: &StopsData, at: Place, leg: Leg) -> bool {
    match leg {
        Leg::Ride { route, trip, from, to } => {
            let line = routes.routes@[route as int];
            &&& route < routes.routes@.len()
            &&& trip < line.number_of_trips
            &&& 0 <= from < to < line.number_of_stops
            &&& routes.stops_of(line)[from] == at.stop
            &&& at.time.before(routes.stop_time(line, trip as int, from).departure_time)
        },
        Leg::Walk { transfer } => {
            &&& at.stop < stops.stops@.len()
            &&& 0 <= transfer < stops.stops@[at.stop as int].transfers_count
        },
    }
}

/// Where the journey stands after its first `upto` legs.
pub open spec fn place_after(
    routes: &RoutesData,
    stops: &StopsData,
    start: Place,
    legs: Seq<Leg>,
    upto: int,
) -> Place
    decreases upto,
{
    if upto <= 0 {
        start
    } else {
        after_leg(
            routes,
            stops,
            place_after(routes, stops, start, legs, upto - 1),
            legs[upto - 1],
        )
    }
}

/// Each of the first `upto` legs can be taken from where the legs before it lead.
pub open spec fn legs_fit(
    routes: &RoutesData,
    stops: &StopsData,
    start: Place,
    legs: Seq<Leg>,
    upto: int,
) -> bool
    decreases upto,
{
    if upto <= 0 {
        true
    } else {
        &&& legs_fit(routes, stops, start, legs, upto - 1)
        &&& leg_fits(
            routes,
            stops,
            place_after(routes, stops, start, legs, upto - 1),
            legs[upto - 1],
        )
    }
}

/// The number of rides among the first `upto` legs.
pub open spec fn rides(legs: Seq<Leg>, upto: int) -> int
    decreases upto,
{
    if upto <= 0 {
        0
    } else {
        rides(legs, upto - 1) + if legs[upto - 1] is Ride {
            1int
        } else {
            0int
        }
    }
}

/// `legs` is a journey from `start` to `end` with at most `limit` rides.
pub open spec fn is_journey(
    routes: &RoutesData,
    stops: &StopsData,
    start: Place,
    end: Place,
    limit: int,
    legs: Seq<Leg>,
) -> bool {
    &&& legs_fit(routes, stops, start, legs, legs.len() as int)
    &&& place_after(routes, stops, start, legs, legs.len() as int) == end
    &&& rides(legs, legs.len() as int) <= limit
}

/// There is a journey from `start` to `end` with at most `limit` rides.
pub open spec fn reachable(
    routes: &RoutesData,
    stops: &StopsData,
    start: Place,
    end: Place,
    limit: int,
) -> bool {
    exists|legs: Seq<Leg>| is_journey(routes, stops, start, end, limit, legs)
}

/// A leg more at the end changes nothing about the legs before it.
pub proof fn lemma_prefix(
    routes: &RoutesData,
    stops: &StopsData,
    start: Place,
    legs: Seq<Leg>,
    leg: Leg,
    upto: int,
)
    requires
        0 <= upto <= legs.len(),
    ensures
        place_after(routes, stops, start, legs.push(leg), upto) == place_after(
            routes,
            stops,
            start,
            legs,
            upto,
        ),
        legs_fit(routes, stops, start, legs.push(leg), upto) == legs_fit(
            routes,
            stops,
            start,
            legs,
            upto,
        ),
        rides(legs.push(leg), upto) == rides(legs, upto),
    decreases upto,
{
    if upto > 0 {
        lemma_prefix(routes, stops, start, legs, leg, upto - 1);
        assert(legs.push(leg)[upto - 1] == legs[upto - 1]);
    }
}

/// Standing at the start is a journey without legs.
pub proof fn lemma_reachable_start(routes: &RoutesData, stops: &StopsData, start: Place, limit: int)
    requires
        0 <= limit,
    ensures
        reachable(routes, stops, start, start, limit),
{
    assert(is_journey(routes, stops, start, start, limit, Seq::<Leg>::empty()));
}

/// A journey with a leg that fits at its end is a journey; a ride counts towards the limit.
pub proof fn lemma_reachable_further(
    routes: &RoutesData,
    stops: &StopsData,
    start: Place,
    at: Place,
    limit: int,
    leg: Leg,
)
    requires
        reachable(routes, stops, start, at, limit),
        leg_fits(routes, stops, at, leg),
    ensures
        reachable(
            routes,
            stops,
            start,
            after_leg(routes, stops, at, leg),
            if leg is Ride {
                limit + 1
            } else {
                limit
            },
        ),
{
    let legs = choose|legs: Seq<Leg>| is_journey(routes, stops, start, at, limit, legs);
    let longer = legs.push(leg);
    lemma_prefix(routes, stops, start, legs, leg, legs.len() as int);
    assert(longer[longer.len() - 1] == leg);
    assert(is_journey(
        routes,
        stops,
        start,
        after_leg(routes, stops, at, leg),
        if leg is Ride {
            limit + 1
        } else {
            limit
        },
        longer,
    ));
}

/// Setting out earlier loses nothing: legs that can be taken after a later departure can
/// be taken after an earlier one, and lead to the same stop no later.
pub proof fn lemma_earlier_start(
    routes: &RoutesData,
    stops: &StopsData,
    stop: usize,
    sooner: Time,
    later: Time,
    legs: Seq<Leg>,
    upto: int,
)
    requires
        sooner.at_most(later),
        0 <= upto <= legs.len(),
        legs_fit(routes, stops, Place { stop, time: later }, legs, upto),
    ensures
        legs_fit(routes, stops, Place { stop, time: sooner }, legs, upto),
        place_after(routes, stops, Place { stop, time: sooner }, legs, upto).stop == place_after(
            routes,
            stops,
            Place { stop, time: later },
            legs,
            upto,
        ).stop,
        place_after(routes, stops, Place { stop, time: sooner }, legs, upto).time.at_most(
            place_after(routes, stops, Place { stop, time: later }, legs, upto).time,
        ),
    decreases upto,
{
    if upto > 0 {
        lemma_earlier_start(routes, stops, stop, sooner, later, legs, upto - 1);
    }
}

/// What can be reached after a later departure can be reached no later after an earlier
/// one, with no more rides.
pub proof fn lemma_reachable_earlier(
    routes: &RoutesData,
    stops: &StopsData,
    stop: usize,
    sooner: Time,
    later: Time,
    end: Place,
    limit: int,
) -> (time: Time)
    requires
        sooner.at_most(later),
        reachable(routes, stops, Place { stop, time: later }, end, limit),
    ensures
        time.at_most(end.time),
        reachable(routes, stops, Place { stop, time: sooner }, Place { stop: end.stop, time }, limit),
{
    let legs = choose|legs: Seq<Leg>|
        is_journey(routes, stops, Place { stop, time: later }, end, limit, legs);
    lemma_earlier_start(routes, stops, stop, sooner, later, legs, legs.len() as int);
    let reached = place_after(routes, stops, Place { stop, time: sooner }, legs, legs.len() as int);
    assert(is_journey(routes, stops, Place { stop, time: sooner }, reached, limit, legs));
    reached.time
}

} // verus!
