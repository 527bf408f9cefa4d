//! The timetable as flat arrays: routes, their stops and stop times, and the stops with their
//! foot-paths and the routes that serve them. Every reference between them is an index.

use vstd::prelude::*;
use vstd::std_specs::cmp::PartialEqSpecImpl;

use crate::time::Time;

verus! {

/// A line of the network: a fixed sequence of stops, and the trips that run along it.
#[derive(Clone)]
pub struct Route {
    /// The number of trips of the route.
    pub number_of_trips: usize,
    /// The number of stops that each trip of the route visits.
    pub number_of_stops: usize,
    /// Where the stops of the route begin in `RoutesData::route_stops`.
    pub route_stops_start_index: usize,
    /// Where the stop times of the first trip begin in `RoutesData::stop_times`.
    pub stop_times_start_index: usize,
}

/// The arrival and the departure of one trip at one stop.
#[derive(Clone, Copy)]
pub struct StopTime {
    pub departure_time: Time,
    pub arrival_time: Time,
}

/// All routes, packed.
///
/// `stop_times` holds one block per route, and in it one run of `number_of_stops` entries per
/// trip, the trips in the order of their departure at the first stop. `route_stops` holds the
/// stop sequence of each route as indices into `StopsData::stops`.
#[derive(Clone)]
pub struct RoutesData {
    pub stop_times: Vec<StopTime>,
    pub routes: Vec<Route>,
    pub route_stops: Vec<usize>,
}

/// A stop, with its foot-paths as a block of `StopsData::transfers` and the routes that serve
/// it as a block of `StopsData::stop_routes`.
#[derive(Clone)]
pub struct Stop {
    pub id: String,
    pub transfers_index_start: usize,
    pub stop_routes_index_start: usize,
    pub transfers_count: usize,
    pub stop_routes_count: usize,
}

/// A foot-path that leaves a stop.
#[derive(Clone, Copy)]
pub struct Transfer {
    /// The stop that the foot-path leads to.
    pub target: usize,
    /// The time that the walk takes.
    pub time: Time,
}

/// All stops, packed.
#[derive(Clone)]
pub struct StopsData {
    pub transfers: Vec<Transfer>,
    pub stops: Vec<Stop>,
    /// Indices into `RoutesData::routes`.
    pub stop_routes: Vec<usize>,
}

impl RoutesData {
    /// The blocks of `route` lie inside the backing arrays.
    pub open spec fn holds(&self, route: Route) -> bool {
        &&& route.route_stops_start_index + route.number_of_stops <= self.route_stops.len()
        &&& route.stop_times_start_index + route.number_of_trips * route.number_of_stops
            <= self.stop_times.len()
    }

    /// The stop sequence of `route`.
    pub open spec fn stops_of(&self, route: Route) -> Seq<usize> {
        self.route_stops@.subrange(
            route.route_stops_start_index as int,
            route.route_stops_start_index + route.number_of_stops,
        )
    }

    /// The stop times of all trips of `route`, trip after trip.
    pub open spec fn times_of(&self, route: Route) -> Seq<StopTime> {
        self.stop_times@.subrange(
            route.stop_times_start_index as int,
            route.stop_times_start_index + route.number_of_trips * route.number_of_stops,
        )
    }

    /// The stop time of trip `trip` of `route` at position `position` of its stop sequence.
    pub open spec fn stop_time(&self, route: Route, trip: int, position: int) -> StopTime {
        self.stop_times@[route.stop_times_start_index + trip * route.number_of_stops + position]
    }

    /// The stop times of trip `trip` of `route`.
    pub open spec fn trip_of(&self, route: Route, trip: int) -> Seq<StopTime> {
        self.stop_times@.subrange(
            route.stop_times_start_index + trip * route.number_of_stops,
            route.stop_times_start_index + (trip + 1) * route.number_of_stops,
        )
    }

    /// The first position of `stop` in the stop sequence of `route`, if it is there.
    pub open spec fn position_of(&self, route: Route, stop: usize) -> Option<int> {
        self.stops_of(route).index_of_first(stop)
    }

    /// The first trip of `route`, from trip `from` on, that leaves position `position`
    /// strictly later than `after`.
    pub open spec fn departing_from(
        &self,
        route: Route,
        position: int,
        after: Time,
        from: int,
    ) -> Option<int>
        decreases route.number_of_trips - from,
    {
        if from < 0 || from >= route.number_of_trips {
            None
        } else if after.before(self.stop_time(route, from, position).departure_time) {
            Some(from)
        } else {
            self.departing_from(route, position, after, from + 1)
        }
    }

    /// The first trip of `route` that leaves position `position` strictly later than `after`.
    pub open spec fn earliest_departing(&self, route: Route, position: int, after: Time) -> Option<
        int,
    > {
        self.departing_from(route, position, after, 0)
    }

    /// Every route lies inside the backing arrays and names stops below `stop_count` only.
    pub open spec fn well_formed(&self, stop_count: int) -> bool {
        &&& forall|r: int| 0 <= r < self.routes@.len() ==> self.holds(#[trigger] self.routes@[r])
        &&& forall|i: int|
            0 <= i < self.route_stops@.len() ==> (#[trigger] self.route_stops@[i]) < stop_count
    }

    /// Route `r` visits `stop`.
    pub open spec fn visits(&self, r: int, stop: int) -> bool {
        exists|j: int|
            0 <= j < self.routes@[r].number_of_stops && (#[trigger] self.stops_of(
                self.routes@[r],
            )[j]) == stop
    }

    /// The stop times of all trips of `route`.
    pub fn get_stop_times(&self, route: &Route) -> (times: &[StopTime])
        requires
            self.holds(*route),
        ensures
            times@ == self.times_of(*route),
    {
        let start = route.stop_times_start_index;
        assert(route.number_of_trips * route.number_of_stops <= self.stop_times.len());
        let length = route.number_of_trips * route.number_of_stops;
        let end = start + length;
        &self.stop_times[start..end]
    }

    /// The stop sequence of `route`.
    pub fn get_route_stops(&self, route: &Route) -> (stops: &[usize])
        requires
            self.holds(*route),
        ensures
            stops@ == self.stops_of(*route),
    {
        let start = route.route_stops_start_index;
        let end = start + route.number_of_stops;
        &self.route_stops[start..end]
    }

    /// The position of `stop` in the stop sequence of `route`: the first one where the stop
    /// is visited more than once, `None` where the route does not visit it.
    pub fn get_stop_sequence(&self, route: &Route, stop: &usize) -> (position: Option<usize>)
        requires
            self.holds(*route),
        ensures
            position.is_some() == self.stops_of(*route).contains(*stop),
            position matches Some(p) ==> {
                &&& p < route.number_of_stops
                &&& self.stops_of(*route)[p as int] == *stop
                &&& forall|j: int| 0 <= j < p ==> self.stops_of(*route)[j] != *stop
            },
            self.position_of(*route, *stop) == match position {
                Some(p) => Some(p as int),
                None => None,
            },
    {
        let route_stops = self.get_route_stops(route);
        proof {
            self.stops_of(*route).index_of_first_ensures(*stop);
        }
        let mut position: usize = 0;
        while position < route_stops.len()
            invariant
                position <= route_stops@.len(),
                route_stops@ == self.stops_of(*route),
                route_stops@.len() == route.number_of_stops,
                forall|j: int| 0 <= j < position ==> route_stops@[j] != *stop,
            decreases route_stops@.len() - position,
        {
            if route_stops[position] == *stop {
                proof {
                    let stops = self.stops_of(*route);
                    stops.index_of_first_ensures(*stop);
                    assert(stops[position as int] == *stop);
                    let first = stops.index_of_first(*stop).unwrap();
                    assert(first == position) by {
                        if first < position {
                            assert(route_stops@[first] != *stop);
                        }
                    }
                }
                return Some(position);
            }
            position += 1;
        }
        None
    }

    /// The earliest trip of `route` that leaves the stop at position `from_stop_sequence`
    /// strictly later than `after`: its number within the route, and its stop times.
    pub fn get_earliest_departing_trip(
        &self,
        route: &Route,
        from_stop_sequence: &usize,
        after: &Time,
    ) -> (found: Option<(usize, &[StopTime])>)
        requires
            self.holds(*route),
            *from_stop_sequence < route.number_of_stops,
        ensures
            found matches Some((trip, times)) ==> {
                &&& self.earliest_departing(*route, *from_stop_sequence as int, *after) == Some(
                    trip as int,
                )
                &&& trip < route.number_of_trips
                &&& times@ == self.trip_of(*route, trip as int)
            },
            found is None ==> self.earliest_departing(*route, *from_stop_sequence as int, *after)
                is None,
    {
        let stop_times = self.get_stop_times(route);
        let mut trip_index: usize = 0;
        while trip_index < route.number_of_trips
            invariant
                self.holds(*route),
                *from_stop_sequence < route.number_of_stops,
                trip_index <= route.number_of_trips,
                stop_times@ == self.times_of(*route),
                self.earliest_departing(*route, *from_stop_sequence as int, *after)
                    == self.departing_from(
                    *route,
                    *from_stop_sequence as int,
                    *after,
                    trip_index as int,
                ),
            decreases route.number_of_trips - trip_index,
        {
            proof {
                lemma_trip_block(
                    trip_index as int,
                    route.number_of_trips as int,
                    route.number_of_stops as int,
                );
            }
            let trip_start = trip_index * route.number_of_stops;
            let stop_time = &stop_times[trip_start + *from_stop_sequence];
            if stop_time.departure_time > *after {
                let trip_end = trip_start + route.number_of_stops;
                let trip = &stop_times[trip_start..trip_end];
                assert(trip@ =~= self.trip_of(*route, trip_index as int));
                return Some((trip_index, trip));
            }
            trip_index += 1;
        }
        None
    }
}

/// Where the run of trip `trip` lies inside a block of `trips` runs of `stops` entries each.
pub proof fn lemma_trip_block(trip: int, trips: int, stops: int)
    requires
        0 <= trip < trips,
        0 <= stops,
    ensures
        0 <= trip * stops,
        trip * stops + stops <= trips * stops,
        (trip + 1) * stops == trip * stops + stops,
{
    assert(0 <= trip * stops) by (nonlinear_arith)
        requires
            0 <= trip,
            0 <= stops,
    ;
    assert((trip + 1) * stops == trip * stops + stops) by (nonlinear_arith);
    assert((trip + 1) * stops <= trips * stops) by (nonlinear_arith)
        requires
            trip + 1 <= trips,
            0 <= stops,
    ;
}

impl StopsData {
    /// The blocks of `stop` lie inside the backing arrays.
    pub open spec fn holds(&self, stop: Stop) -> bool {
        &&& stop.stop_routes_index_start + stop.stop_routes_count <= self.stop_routes.len()
        &&& stop.transfers_index_start + stop.transfers_count <= self.transfers.len()
    }

    /// The routes that `stop` lists as serving it.
    pub open spec fn routes_of(&self, stop: Stop) -> Seq<usize> {
        self.stop_routes@.subrange(
            stop.stop_routes_index_start as int,
            stop.stop_routes_index_start + stop.stop_routes_count,
        )
    }

    /// The foot-paths that leave `stop`.
    pub open spec fn transfers_of(&self, stop: Stop) -> Seq<Transfer> {
        self.transfers@.subrange(
            stop.transfers_index_start as int,
            stop.transfers_index_start + stop.transfers_count,
        )
    }

    /// Every stop lies inside the backing arrays, names routes below `route_count` only, and
    /// every foot-path leads to a stop.
    pub open spec fn well_formed(&self, route_count: int) -> bool {
        &&& forall|s: int| 0 <= s < self.stops@.len() ==> self.holds(#[trigger] self.stops@[s])
        &&& forall|i: int|
            0 <= i < self.stop_routes@.len() ==> (#[trigger] self.stop_routes@[i]) < route_count
        &&& forall|i: int|
            0 <= i < self.transfers@.len() ==> (#[trigger] self.transfers@[i]).target
                < self.stops@.len()
    }

    /// Stop `s` lists route `route` as serving it.
    pub open spec fn lists(&self, s: int, route: int) -> bool {
        exists|i: int|
            0 <= i < self.stops@[s].stop_routes_count && (#[trigger] self.routes_of(
                self.stops@[s],
            )[i]) == route
    }

    /// The routes that serve `stop`.
    pub fn get_routes_for(&self, stop: &Stop) -> (routes: &[usize])
        requires
            self.holds(*stop),
        ensures
            routes@ == self.routes_of(*stop),
    {
        let start = stop.stop_routes_index_start;
        let end = start + stop.stop_routes_count;
        &self.stop_routes[start..end]
    }

    /// The routes that serve the stop with index `stop`.
    pub fn get_routes(&self, stop: &usize) -> (routes: &[usize])
        requires
            *stop < self.stops@.len(),
            self.holds(self.stops@[*stop as int]),
        ensures
            routes@ == self.routes_of(self.stops@[*stop as int]),
    {
        let stop = &self.stops[*stop];
        self.get_routes_for(stop)
    }
}

/// The two halves of a timetable fit together: both are well formed, and a stop lists a
/// route exactly where the route visits the stop.
pub open spec fn network_well_formed(routes: &RoutesData, stops: &StopsData) -> bool {
    &&& routes.well_formed(stops.stops@.len() as int)
    &&& stops.well_formed(routes.routes@.len() as int)
    &&& forall|s: int, r: int|
        #![trigger stops.lists(s, r)]
        #![trigger routes.visits(r, s)]
        0 <= s < stops.stops@.len() && 0 <= r < routes.routes@.len() ==> (stops.lists(s, r)
            <==> routes.visits(r, s))
}

impl PartialEq for Stop {
    /// Two stops are the same stop where their ids are equal.
    fn eq(&self, other: &Stop) -> (equal: bool) {
        self.id == other.id
    }
}

impl PartialEqSpecImpl for Stop {
    open spec fn obeys_eq_spec() -> bool {
        true
    }

    open spec fn eq_spec(&self, other: &Stop) -> bool {
        self.id@ == other.id@
    }
}

impl Eq for Stop {

}

} // verus!
