//! The last step of the assembler: the routes and stops flattened into the arrays of
//! `crate::shared`.

use vstd::prelude::*;

use crate::data::{
    distinct, fault_in, get_routes, get_stops, route_models, routes_from, runs_of, texts,
    transfer_blocks, unknown_in, AssemblyError, Fault, GetRoutesReturn, GetStopsReturn,
    PartialStop, RouteModel, StopIndex, StopTimeRow, TransferRow, TripsByStops,
};
use crate::layout::{
    departures_ascend, lemma_flattened_network, mirrors, stops_fit, tidy, trips_leave_in_order,
};
use crate::packing::{contents, joined, lemma_offset_step, offset, pack};
use crate::engine::{maps_of, query, QueryResult};
use crate::rounds::{answers, round_at};
use crate::shared::network_well_formed;
use crate::time::Time;
use crate::shared::{Route, RoutesData, Stop, StopTime, StopsData, Transfer};

verus! {

/// The stop sequence of each route.
pub open spec fn stop_blocks(routes: Seq<RouteModel>) -> Seq<Seq<usize>> {
    Seq::new(routes.len(), |r: int| routes[r].stops)
}

/// The stop times of each trip of a route.
pub open spec fn trip_blocks(route: RouteModel) -> Seq<Seq<StopTime>> {
    Seq::new(route.trips.len(), |t: int| route.trips[t].stop_times)
}

/// The stop times of each route, trip after trip.
pub open spec fn time_blocks(routes: Seq<RouteModel>) -> Seq<Seq<StopTime>> {
    Seq::new(routes.len(), |r: int| joined(trip_blocks(routes[r])))
}

/// The trip ids of each route.
pub open spec fn id_blocks(routes: Seq<RouteModel>) -> Seq<Seq<Seq<char>>> {
    Seq::new(routes.len(), |r: int| Seq::new(routes[r].trips.len(), |t: int| routes[r].trips[t].id))
}

/// Route `r` once for each of the positions below `upto` at which `stops` names stop `s`.
pub open spec fn calls(stops: Seq<usize>, s: int, r: usize, upto: int) -> Seq<usize>
    decreases upto,
{
    if upto <= 0 {
        Seq::empty()
    } else if stops[upto - 1] == s {
        calls(stops, s, r, upto - 1).push(r)
    } else {
        calls(stops, s, r, upto - 1)
    }
}

/// The routes below `upto` that visit stop `s`, in the order of their indices, each once
/// for every time that it visits the stop.
pub open spec fn serving(routes: Seq<RouteModel>, s: int, upto: int) -> Seq<usize>
    decreases upto,
{
    if upto <= 0 {
        Seq::empty()
    } else {
        serving(routes, s, upto - 1) + calls(
            routes[upto - 1].stops,
            s,
            (upto - 1) as usize,
            routes[upto - 1].stops.len() as int,
        )
    }
}

/// The routes that visit each of the `stop_count` stops.
pub open spec fn serving_blocks(routes: Seq<RouteModel>, stop_count: int) -> Seq<Seq<usize>> {
    Seq::new(stop_count as nat, |s: int| serving(routes, s, routes.len() as int))
}

/// The arrays are the routes and stops flattened: one block per route in `route_stops` and
/// in `stop_times`, one id per trip, and for each stop the block of the routes that visit it.
pub open spec fn flattens(
    routes: Seq<RouteModel>,
    partial_stops: Seq<PartialStop>,
    transfers: Seq<Transfer>,
    routes_data: RoutesData,
    stops_data: StopsData,
    trip_ids: Seq<String>,
) -> bool {
    &&& routes_data.route_stops@ == joined(stop_blocks(routes))
    &&& routes_data.stop_times@ == joined(time_blocks(routes))
    &&& texts(trip_ids) == joined(id_blocks(routes))
    &&& routes_data.routes@.len() == routes.len()
    &&& forall|r: int|
        0 <= r < routes.len() ==> {
            let route = #[trigger] routes_data.routes@[r];
            &&& route.number_of_trips == routes[r].trips.len()
            &&& route.number_of_stops == routes[r].stops.len()
            &&& route.route_stops_start_index == offset(stop_blocks(routes), r)
            &&& route.stop_times_start_index == offset(time_blocks(routes), r)
        }
    &&& stops_data.transfers@ == transfers
    &&& stops_data.stop_routes@ == joined(serving_blocks(routes, partial_stops.len() as int))
    &&& stops_data.stops@.len() == partial_stops.len()
    &&& forall|s: int|
        0 <= s < partial_stops.len() ==> {
            let stop = #[trigger] stops_data.stops@[s];
            &&& stop.id@ == partial_stops[s].id@
            &&& stop.transfers_index_start == partial_stops[s].transfers_index_start
            &&& stop.transfers_count == partial_stops[s].transfers_count
            &&& stop.stop_routes_index_start == offset(
                serving_blocks(routes, partial_stops.len() as int),
                s,
            )
            &&& stop.stop_routes_count == serving_blocks(routes, partial_stops.len() as int)[s].len()
        }
}

/// Appends the stops, the stop times and the trip ids of one route to the arrays, and notes
/// the route with each of its stops.
fn append_route(
    group: &TripsByStops,
    r: usize,
    route_stops: &mut Vec<usize>,
    stop_times: &mut Vec<StopTime>,
    trip_ids: &mut Vec<String>,
    routes_at: &mut Vec<Vec<usize>>,
)
    ensures
        final(route_stops)@ == old(route_stops)@ + group@.stops,
        final(stop_times)@ == old(stop_times)@ + joined(trip_blocks(group@)),
        texts(final(trip_ids)@) == texts(old(trip_ids)@) + Seq::new(
            group@.trips.len(),
            |t: int| group@.trips[t].id,
        ),
        final(routes_at)@.len() == old(routes_at)@.len(),
        forall|s: int|
            0 <= s < old(routes_at)@.len() ==> (#[trigger] final(routes_at)@[s])@ == old(
                routes_at,
            )@[s]@ + calls(group@.stops, s, r, group@.stops.len() as int),
{
    let mut j: usize = 0;
    while j < group.stops.len()
        invariant
            j <= group.stops@.len(),
            route_stops@ == old(route_stops)@ + group@.stops.take(j as int),
            routes_at@.len() == old(routes_at)@.len(),
            forall|s: int|
                0 <= s < old(routes_at)@.len() ==> (#[trigger] routes_at@[s])@ == old(
                    routes_at,
                )@[s]@ + calls(group@.stops, s, r, j as int),
        decreases group.stops@.len() - j,
    {
        let stop = group.stops[j];
        let ghost before = routes_at@;
        if stop < routes_at.len() {
            routes_at[stop].push(r);
        }
        route_stops.push(stop);
        proof {
            assert(route_stops@ =~= old(route_stops)@ + group@.stops.take(j + 1));
            assert forall|s: int| 0 <= s < old(routes_at)@.len() implies (
            #[trigger] routes_at@[s])@ == old(routes_at)@[s]@ + calls(
                group@.stops,
                s,
                r,
                j + 1,
            ) by {
                if s != stop {
                    assert(routes_at@[s] == before[s]);
                } else {
                    assert(routes_at@[s]@ =~= old(routes_at)@[s]@ + calls(
                        group@.stops,
                        s,
                        r,
                        j + 1,
                    ));
                }
            }
        }
        j += 1;
    }
    assert(group@.stops.take(group@.stops.len() as int) =~= group@.stops);
    let ghost blocks = trip_blocks(group@);
    let ghost ids = Seq::new(group@.trips.len(), |t: int| group@.trips[t].id);
    let mut t: usize = 0;
    assert(blocks.take(0) =~= Seq::empty());
    assert(texts(trip_ids@) =~= texts(old(trip_ids)@) + ids.take(0));
    while t < group.trips.len()
        invariant
            t <= group.trips@.len(),
            blocks == trip_blocks(group@),
            ids == Seq::new(group@.trips.len(), |t: int| group@.trips[t].id),
            stop_times@ == old(stop_times)@ + joined(blocks.take(t as int)),
            texts(trip_ids@) == texts(old(trip_ids)@) + ids.take(t as int),
        decreases group.trips@.len() - t,
    {
        let trip = &group.trips[t];
        let ghost so_far = stop_times@;
        let mut i: usize = 0;
        while i < trip.stop_times.len()
            invariant
                i <= trip.stop_times@.len(),
                stop_times@ == so_far + trip.stop_times@.take(i as int),
            decreases trip.stop_times@.len() - i,
        {
            stop_times.push(trip.stop_times[i]);
            assert(stop_times@ =~= so_far + trip.stop_times@.take(i + 1));
            i += 1;
        }
        let ghost ids_so_far = texts(trip_ids@);
        trip_ids.push(trip.id.clone());
        proof {
            assert(texts(trip_ids@) =~= ids_so_far.push(trip.id@));
            assert(ids[t as int] == trip.id@);
            assert(ids.take(t + 1) =~= ids.take(t as int).push(ids[t as int]));
            assert(trip.stop_times@.take(trip.stop_times@.len() as int) =~= trip.stop_times@);
            lemma_offset_step(blocks, t as int);
            assert(blocks[t as int] == trip.stop_times@);
            assert(stop_times@ =~= old(stop_times)@ + joined(blocks.take(t + 1)));
            assert(texts(trip_ids@) =~= texts(old(trip_ids)@) + ids.take(t + 1));
        }
        t += 1;
    }
    assert(blocks.take(blocks.len() as int) =~= blocks);
    assert(ids.take(ids.len() as int) =~= ids);
}

/// Flattens the routes and the stops into the arrays that the engine works on.
///
/// The routes keep the order of `routes`, the trips of a route theirs. The third result
/// holds the id of each trip, in the order of the trips in `RoutesData::stop_times`.
pub fn assemble_raptor_data(
    routes: GetRoutesReturn,
    partial_stops: Vec<PartialStop>,
    transfers: Vec<Transfer>,
) -> (assembled: (RoutesData, StopsData, Vec<String>))
    ensures
        flattens(
            route_models(routes.trips_by_stops@),
            partial_stops@,
            transfers@,
            assembled.0,
            assembled.1,
            assembled.2@,
        ),
        tidy(route_models(routes.trips_by_stops@), partial_stops@.len() as int) && stops_fit(
            partial_stops@,
            transfers@,
        ) ==> {
            &&& network_well_formed(&assembled.0, &assembled.1)
            &&& mirrors(route_models(routes.trips_by_stops@), assembled.0)
            &&& departures_ascend(assembled.0)
            &&& trips_leave_in_order(assembled.0)
        },
{
    let ghost models = route_models(routes.trips_by_stops@);
    let stop_count = partial_stops.len();
    let mut trip_ids: Vec<String> = Vec::new();
    let mut stop_times: Vec<StopTime> = Vec::new();
    let mut found: Vec<Route> = Vec::new();
    let mut route_stops: Vec<usize> = Vec::new();
    let mut routes_at: Vec<Vec<usize>> = Vec::new();
    while routes_at.len() < stop_count
        invariant
            routes_at@.len() <= stop_count,
            forall|s: int| 0 <= s < routes_at@.len() ==> (#[trigger] routes_at@[s])@.len() == 0,
        decreases stop_count - routes_at@.len(),
    {
        routes_at.push(Vec::new());
    }
    let mut r: usize = 0;
    proof {
        assert(stop_blocks(models).take(0) =~= Seq::empty());
        assert(time_blocks(models).take(0) =~= Seq::empty());
        assert(id_blocks(models).take(0) =~= Seq::empty());
        assert(texts(trip_ids@) =~= joined(id_blocks(models).take(0)));
        assert forall|s: int| 0 <= s < stop_count implies (#[trigger] routes_at@[s])@ == serving(
            models,
            s,
            0,
        ) by {
            assert(routes_at@[s]@ =~= Seq::empty());
        }
    }
    while r < routes.trips_by_stops.len()
        invariant
            r <= routes.trips_by_stops@.len(),
            models == route_models(routes.trips_by_stops@),
            routes_at@.len() == stop_count,
            found@.len() == r,
            route_stops@ == joined(stop_blocks(models).take(r as int)),
            stop_times@ == joined(time_blocks(models).take(r as int)),
            texts(trip_ids@) == joined(id_blocks(models).take(r as int)),
            forall|s: int|
                0 <= s < stop_count ==> (#[trigger] routes_at@[s])@ == serving(models, s, r as int),
            forall|q: int|
                0 <= q < r ==> {
                    let route = #[trigger] found@[q];
                    &&& route.number_of_trips == models[q].trips.len()
                    &&& route.number_of_stops == models[q].stops.len()
                    &&& route.route_stops_start_index == offset(stop_blocks(models), q)
                    &&& route.stop_times_start_index == offset(time_blocks(models), q)
                },
        decreases routes.trips_by_stops@.len() - r,
    {
        let group = &routes.trips_by_stops[r];
        let route_stops_start_index = route_stops.len();
        let stop_times_start_index = stop_times.len();
        append_route(group, r, &mut route_stops, &mut stop_times, &mut trip_ids, &mut routes_at);
        found.push(
            Route {
                number_of_trips: group.trips.len(),
                number_of_stops: group.stops.len(),
                route_stops_start_index,
                stop_times_start_index,
            },
        );
        proof {
            assert(models[r as int] == group@);
            lemma_offset_step(stop_blocks(models), r as int);
            lemma_offset_step(time_blocks(models), r as int);
            lemma_offset_step(id_blocks(models), r as int);
        }
        r += 1;
    }
    proof {
        assert(stop_blocks(models).take(models.len() as int) =~= stop_blocks(models));
        assert(time_blocks(models).take(models.len() as int) =~= time_blocks(models));
        assert(id_blocks(models).take(models.len() as int) =~= id_blocks(models));
    }
    let ghost blocks = serving_blocks(models, stop_count as int);
    assert(contents(routes_at@) =~= blocks);
    let (stop_routes, starts) = pack(&routes_at);
    let mut stops: Vec<Stop> = Vec::new();
    let mut s: usize = 0;
    while s < stop_count
        invariant
            s <= stop_count,
            stop_count == partial_stops@.len(),
            routes_at@.len() == stop_count,
            starts@.len() == stop_count,
            contents(routes_at@) == blocks,
            blocks.len() == stop_count,
            stops@.len() == s,
            forall|q: int| 0 <= q < stop_count ==> (#[trigger] starts@[q]) == offset(blocks, q),
            forall|q: int|
                0 <= q < s ==> {
                    let stop = #[trigger] stops@[q];
                    &&& stop.id@ == partial_stops@[q].id@
                    &&& stop.transfers_index_start == partial_stops@[q].transfers_index_start
                    &&& stop.transfers_count == partial_stops@[q].transfers_count
                    &&& stop.stop_routes_index_start == offset(blocks, q)
                    &&& stop.stop_routes_count == blocks[q].len()
                },
        decreases stop_count - s,
    {
        let partial = &partial_stops[s];
        assert(blocks[s as int] == routes_at@[s as int]@);
        stops.push(
            Stop {
                id: partial.id.clone(),
                transfers_index_start: partial.transfers_index_start,
                stop_routes_index_start: starts[s],
                transfers_count: partial.transfers_count,
                stop_routes_count: routes_at[s].len(),
            },
        );
        s += 1;
    }
    let routes_data = RoutesData { stop_times, routes: found, route_stops };
    let stops_data = StopsData { transfers, stops, stop_routes };
    proof {
        if tidy(models, partial_stops@.len() as int) && stops_fit(
            partial_stops@,
            stops_data.transfers@,
        ) {
            lemma_flattened_network(
                models,
                partial_stops@,
                stops_data.transfers@,
                routes_data,
                stops_data,
                trip_ids@,
            );
        }
    }
    (routes_data, stops_data, trip_ids)
}

/// A timetable ready for queries: the arrays of a well-formed network.
pub struct RaptorDataSet {
    index_by_stop_id: StopIndex,
    routes_data: RoutesData,
    stops_data: StopsData,
    trip_ids: Vec<String>,
}

impl RaptorDataSet {
    #[verifier::type_invariant]
    spec fn sound(self) -> bool {
        network_well_formed(&self.routes_data, &self.stops_data)
    }

    /// The index of each stop id in the stops.
    pub closed spec fn index(self) -> StopIndex {
        self.index_by_stop_id
    }

    /// The routes.
    pub closed spec fn routes(self) -> RoutesData {
        self.routes_data
    }

    /// The stops.
    pub closed spec fn stops(self) -> StopsData {
        self.stops_data
    }

    /// The id of each trip, in the order of the trips in the stop times of the routes.
    pub closed spec fn trips(self) -> Vec<String> {
        self.trip_ids
    }

    /// The index of each stop id in the stops.
    pub fn index_by_stop_id(&self) -> (index: &StopIndex)
        ensures
            *index == self.index(),
    {
        &self.index_by_stop_id
    }

    /// The routes.
    pub fn routes_data(&self) -> (routes: &RoutesData)
        ensures
            *routes == self.routes(),
            network_well_formed(&self.routes(), &self.stops()),
    {
        proof {
            use_type_invariant(self);
        }
        &self.routes_data
    }

    /// The stops.
    pub fn stops_data(&self) -> (stops: &StopsData)
        ensures
            *stops == self.stops(),
            network_well_formed(&self.routes(), &self.stops()),
    {
        proof {
            use_type_invariant(self);
        }
        &self.stops_data
    }

    /// The id of each trip, in the order of the trips in the stop times of the routes.
    pub fn trip_ids(&self) -> (ids: &Vec<String>)
        ensures
            *ids == self.trips(),
    {
        &self.trip_ids
    }

    /// Answers a query on the timetable. There is no answer where the source or the target
    /// is no stop of it.
    pub fn query(&self, source: usize, target: usize, departure: &Time) -> (result: Option<
        QueryResult,
    >)
        ensures
            result is Some <==> source < self.stops().stops@.len() && target
                < self.stops().stops@.len(),
            result matches Some(found) ==> {
                &&& answers(
                    &self.routes(),
                    &self.stops(),
                    source,
                    target,
                    *departure,
                    maps_of(found.connections_by_round@),
                )
                &&& found.labels_by_round@.len() == found.connections_by_round@.len() + 1
                &&& forall|k: nat|
                    k < found.labels_by_round@.len() ==> found.labels_by_round@[k as int]@ == (
                    #[trigger] round_at(
                        &self.routes(),
                        &self.stops(),
                        source,
                        target,
                        *departure,
                        k,
                    )).labels
            },
    {
        proof {
            use_type_invariant(self);
        }
        if source < self.stops_data.stops.len() && target < self.stops_data.stops.len() {
            Some(query(source, target, departure, &self.routes_data, &self.stops_data))
        } else {
            None
        }
    }
}

/// Assembles the three tables of a timetable into the arrays that the engine works on.
///
/// The stop-time rows are to be in the order of trip id and departure. The transfers are
/// looked at before the stop times: where both name an unknown stop, the error names the
/// one of the transfers.
pub fn setup_raptor(
    stop_ids: Vec<String>,
    transfer_rows: Vec<TransferRow>,
    stop_time_rows: Vec<StopTimeRow>,
) -> (result: Result<RaptorDataSet, AssemblyError>)
    ensures
        match result {
            Ok(data) => {
                let names = distinct(texts(stop_ids@));
                let runs = runs_of(names, stop_time_rows@, stop_time_rows@.len() as int);
                let routes = routes_from(runs, runs.len() as int);
                &&& unknown_in(names, transfer_rows@, transfer_rows@.len() as int) is None
                &&& fault_in(names, stop_time_rows@, stop_time_rows@.len() as int) is None
                &&& data.index().names() == names
                &&& data.stops().stops@.len() == names.len()
                &&& forall|s: int|
                    0 <= s < names.len() ==> (#[trigger] data.stops().stops@[s]).id@ == names[s]
                &&& forall|s: int|
                    0 <= s < names.len() ==> data.stops().transfers_of(
                        #[trigger] data.stops().stops@[s],
                    ) == transfer_blocks(names, transfer_rows@)[s]
                &&& network_well_formed(&data.routes(), &data.stops())
                &&& mirrors(routes, data.routes())
                &&& departures_ascend(data.routes())
                &&& trips_leave_in_order(data.routes())
                &&& texts(data.trips()@) == joined(id_blocks(routes))
            },
            Err(AssemblyError::UnknownStopId(id)) => {
                let names = distinct(texts(stop_ids@));
                let unknown = unknown_in(names, transfer_rows@, transfer_rows@.len() as int);
                unknown == Some(id@) || (unknown is None && fault_in(
                    names,
                    stop_time_rows@,
                    stop_time_rows@.len() as int,
                ) == Some(Fault::UnknownStop(id@)))
            },
            Err(AssemblyError::MalformedTime(_)) => false,
            Err(AssemblyError::MissingOrdering) => {
                let names = distinct(texts(stop_ids@));
                &&& unknown_in(names, transfer_rows@, transfer_rows@.len() as int) is None
                &&& fault_in(names, stop_time_rows@, stop_time_rows@.len() as int) == Some(
                    Fault::OutOfOrder,
                )
            },
        },
{
    let GetStopsReturn { transfers, stops, index_by_stop_id } = match get_stops(
        stop_ids,
        transfer_rows,
    ) {
        Ok(found) => found,
        Err(error) => {
            return Err(error);
        },
    };
    let routes = match get_routes(stop_time_rows, &index_by_stop_id) {
        Ok(routes) => routes,
        Err(error) => {
            return Err(error);
        },
    };
    let ghost names = index_by_stop_id.names();
    let ghost blocks = transfer_blocks(names, transfer_rows@);
    let ghost partial = stops@;
    let (routes_data, stops_data, trip_ids) = assemble_raptor_data(routes, stops, transfers);
    proof {
        assert forall|s: int| 0 <= s < names.len() implies stops_data.transfers_of(
            #[trigger] stops_data.stops@[s],
        ) == blocks[s] by {
            crate::packing::lemma_block_of_joined(blocks, s);
            assert(partial[s].transfers_index_start == offset(blocks, s));
        }
    }
    Ok(RaptorDataSet { index_by_stop_id, routes_data, stops_data, trip_ids })
}

} // verus!
