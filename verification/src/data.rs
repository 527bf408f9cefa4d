//! The assembler: from the rows of the stop, stop-time and transfer tables to the flat arrays
//! that the engine works on.

use std::cmp::Ordering;
use vstd::prelude::*;
use vstd::std_specs::cmp::{PartialEqSpecImpl, PartialOrdSpecImpl};
use vstd::utf8::encode_utf8;

use crate::layout::{lemma_routes_from_tidy, lemma_runs_fit, stops_fit, tidy};
use crate::packing::{contents, joined, offset, pack, reversed};
use crate::shared::{StopTime, Transfer};
use crate::time::Time;
use crate::timestamp::{seconds_of, ParseTimeError};

verus! {

/// Why the tables could not be assembled.
#[derive(Debug)]
pub enum AssemblyError {
    /// A transfer or a stop time names a stop id that the stop table lacks.
    UnknownStopId(String),
    /// A time of a stop-time record is no time stamp.
    MalformedTime(ParseTimeError),
    /// The stop-time rows are not in the order of trip id and departure.
    MissingOrdering,
}

/// The stop ids in the order of their indices: the stop with index `i` has the id `ids[i]`.
pub struct StopIndex {
    pub ids: Vec<String>,
}

/// The text of each string.
pub open spec fn texts(strings: Seq<String>) -> Seq<Seq<char>> {
    Seq::new(strings.len(), |i: int| strings[i]@)
}

/// The ids in the order in which each occurs first.
pub open spec fn distinct(ids: Seq<Seq<char>>) -> Seq<Seq<char>>
    decreases ids.len(),
{
    if ids.len() == 0 {
        Seq::empty()
    } else {
        let before = distinct(ids.drop_last());
        if before.contains(ids.last()) {
            before
        } else {
            before.push(ids.last())
        }
    }
}

/// The index of the stop with the id `id`.
pub open spec fn stop_of(names: Seq<Seq<char>>, id: Seq<char>) -> Option<int> {
    names.index_of_first(id)
}

/// `distinct` keeps every id once.
pub proof fn lemma_distinct(ids: Seq<Seq<char>>)
    ensures
        distinct(ids).no_duplicates(),
        forall|id: Seq<char>| #[trigger] distinct(ids).contains(id) <==> ids.contains(id),
    decreases ids.len(),
{
    if ids.len() > 0 {
        let front = ids.drop_last();
        let before = distinct(front);
        lemma_distinct(front);
        assert forall|id: Seq<char>| #[trigger] distinct(ids).contains(id) <==> ids.contains(
            id,
        ) by {
            if ids.contains(id) {
                let i = choose|i: int| 0 <= i < ids.len() && ids[i] == id;
                if i < front.len() {
                    assert(front[i] == id);
                    assert(before.contains(id));
                    let j = choose|j: int| 0 <= j < before.len() && before[j] == id;
                    assert(distinct(ids)[j] == id);
                } else {
                    if before.contains(id) {
                        let j = choose|j: int| 0 <= j < before.len() && before[j] == id;
                        assert(distinct(ids)[j] == id);
                    } else {
                        assert(distinct(ids)[before.len() as int] == id);
                    }
                }
            }
            if distinct(ids).contains(id) {
                let j = choose|j: int| 0 <= j < distinct(ids).len() && distinct(ids)[j] == id;
                if j < before.len() {
                    assert(before[j] == id);
                    assert(before.contains(id));
                    assert(front.contains(id));
                    let i = choose|i: int| 0 <= i < front.len() && front[i] == id;
                    assert(ids[i] == id);
                } else {
                    assert(ids[ids.len() - 1] == id);
                }
            }
        }
    }
}

impl StopIndex {
    /// The ids as texts.
    pub open spec fn names(&self) -> Seq<Seq<char>> {
        texts(self.ids@)
    }

    /// No id occurs twice.
    pub open spec fn well_formed(&self) -> bool {
        self.names().no_duplicates()
    }

    /// The number of stops.
    pub fn len(&self) -> (count: usize)
        ensures
            count == self.names().len(),
    {
        self.ids.len()
    }

    /// The index of the stop with the id `id`: the first one where the id occurs twice.
    pub fn get(&self, id: &String) -> (found: Option<usize>)
        ensures
            stop_of(self.names(), id@) == match found {
                Some(i) => Some(i as int),
                None => None,
            },
            found matches Some(i) ==> i < self.names().len() && self.names()[i as int] == id@,
            found is None ==> !self.names().contains(id@),
    {
        let mut i: usize = 0;
        while i < self.ids.len()
            invariant
                i <= self.ids@.len(),
                forall|j: int| 0 <= j < i ==> self.names()[j] != id@,
            decreases self.ids@.len() - i,
        {
            if self.ids[i] == *id {
                proof {
                    let names = self.names();
                    names.index_of_first_ensures(id@);
                    assert(names[i as int] == id@);
                    let first = names.index_of_first(id@).unwrap();
                    if first < i {
                        assert(names[first] != id@);
                    }
                }
                return Some(i);
            }
            i += 1;
        }
        proof {
            self.names().index_of_first_ensures(id@);
        }
        None
    }
}

/// A stop before the routes that serve it are known.
pub struct PartialStop {
    pub id: String,
    pub transfers_count: usize,
    pub transfers_index_start: usize,
}

/// What the stop and transfer tables give.
pub struct GetStopsReturn {
    /// The foot-paths of all stops, one block per stop in the order of the stops.
    pub transfers: Vec<Transfer>,
    pub stops: Vec<PartialStop>,
    /// The index of each stop id in `stops`.
    pub index_by_stop_id: StopIndex,
}

/// A row of the transfer table.
pub struct TransferRow {
    pub from_stop_id: String,
    pub to_stop_id: String,
    /// The seconds that the walk takes.
    pub min_transfer_time: u64,
}

/// The first stop id that the rows below `upto` name and `names` lacks: the rows in their
/// order, and in a row the stop that it leaves before the stop that it leads to.
pub open spec fn unknown_in(names: Seq<Seq<char>>, rows: Seq<TransferRow>, upto: int) -> Option<
    Seq<char>,
>
    decreases upto,
{
    if upto <= 0 {
        None
    } else {
        match unknown_in(names, rows, upto - 1) {
            Some(id) => Some(id),
            None => {
                let row = rows[upto - 1];
                if !names.contains(row.from_stop_id@) {
                    Some(row.from_stop_id@)
                } else if !names.contains(row.to_stop_id@) {
                    Some(row.to_stop_id@)
                } else {
                    None
                }
            },
        }
    }
}

/// An unknown id that was found stays the first one when more rows are looked at.
pub proof fn lemma_unknown_stays(
    names: Seq<Seq<char>>,
    rows: Seq<TransferRow>,
    found: int,
    upto: int,
)
    requires
        0 <= found <= upto,
        unknown_in(names, rows, found) is Some,
    ensures
        unknown_in(names, rows, upto) == unknown_in(names, rows, found),
    decreases upto - found,
{
    if found < upto {
        lemma_unknown_stays(names, rows, found, upto - 1);
    }
}

/// The foot-paths that the rows below `upto` give stop `s`, in the order of the rows.
pub open spec fn transfers_from(
    names: Seq<Seq<char>>,
    rows: Seq<TransferRow>,
    s: int,
    upto: int,
) -> Seq<Transfer>
    decreases upto,
{
    if upto <= 0 {
        Seq::empty()
    } else {
        let before = transfers_from(names, rows, s, upto - 1);
        let row = rows[upto - 1];
        if stop_of(names, row.from_stop_id@) == Some(s) {
            before.push(
                Transfer {
                    target: stop_of(names, row.to_stop_id@).unwrap() as usize,
                    time: Time::Finite(row.min_transfer_time),
                },
            )
        } else {
            before
        }
    }
}

/// The foot-paths of each stop, as the rows give them.
pub open spec fn transfer_blocks(names: Seq<Seq<char>>, rows: Seq<TransferRow>) -> Seq<
    Seq<Transfer>,
> {
    Seq::new(names.len(), |s: int| transfers_from(names, rows, s, rows.len() as int))
}

/// The stops of the stop table, each with its foot-paths.
///
/// Every id gets the next index where it occurs first; an id that occurred before is passed
/// over. The foot-paths are grouped by the stop that they leave, the groups in the order of
/// the stops and each in the order of the rows.
pub fn get_stops(stop_ids: Vec<String>, transfer_rows: Vec<TransferRow>) -> (result: Result<
    GetStopsReturn,
    AssemblyError,
>)
    ensures
        match result {
            Ok(found) => {
                let names = distinct(texts(stop_ids@));
                let blocks = transfer_blocks(names, transfer_rows@);
                &&& unknown_in(names, transfer_rows@, transfer_rows@.len() as int) is None
                &&& found.index_by_stop_id.names() == names
                &&& found.index_by_stop_id.well_formed()
                &&& found.stops@.len() == names.len()
                &&& found.transfers@ == joined(blocks)
                &&& forall|s: int|
                    0 <= s < names.len() ==> {
                        let stop = #[trigger] found.stops@[s];
                        &&& stop.id@ == names[s]
                        &&& stop.transfers_index_start == offset(blocks, s)
                        &&& stop.transfers_count == blocks[s].len()
                    }
                &&& stops_fit(found.stops@, found.transfers@)
            },
            Err(AssemblyError::UnknownStopId(id)) => unknown_in(
                distinct(texts(stop_ids@)),
                transfer_rows@,
                transfer_rows@.len() as int,
            ) == Some(id@),
            Err(AssemblyError::MalformedTime(_)) => false,
            Err(AssemblyError::MissingOrdering) => false,
        },
{
    let mut index = StopIndex { ids: Vec::new() };
    let mut i: usize = 0;
    assert(texts(stop_ids@).take(0) =~= Seq::empty());
    assert(index.names() =~= Seq::empty());
    while i < stop_ids.len()
        invariant
            i <= stop_ids@.len(),
            index.names() == distinct(texts(stop_ids@).take(i as int)),
        decreases stop_ids@.len() - i,
    {
        let ghost before = index.names();
        proof {
            let upto = texts(stop_ids@).take(i + 1);
            assert(upto.drop_last() =~= texts(stop_ids@).take(i as int));
            assert(upto.last() == stop_ids@[i as int]@);
        }
        if index.get(&stop_ids[i]).is_none() {
            index.ids.push(stop_ids[i].clone());
            assert(index.names() =~= before.push(stop_ids@[i as int]@));
        }
        i += 1;
    }
    assert(texts(stop_ids@).take(stop_ids@.len() as int) =~= texts(stop_ids@));
    let ghost names = index.names();
    proof {
        lemma_distinct(texts(stop_ids@));
    }
    let stop_count = index.ids.len();
    let mut buckets: Vec<Vec<Transfer>> = Vec::new();
    while buckets.len() < stop_count
        invariant
            buckets@.len() <= stop_count,
            forall|s: int| 0 <= s < buckets@.len() ==> (#[trigger] buckets@[s])@.len() == 0,
        decreases stop_count - buckets@.len(),
    {
        buckets.push(Vec::new());
    }
    let mut row_index: usize = 0;
    while row_index < transfer_rows.len()
        invariant
            row_index <= transfer_rows@.len(),
            names == index.names(),
            names == distinct(texts(stop_ids@)),
            stop_count == names.len(),
            buckets@.len() == stop_count,
            unknown_in(names, transfer_rows@, row_index as int) is None,
            forall|s: int|
                0 <= s < stop_count ==> (#[trigger] buckets@[s])@ == transfers_from(
                    names,
                    transfer_rows@,
                    s,
                    row_index as int,
                ),
            forall|s: int, t: int|
                0 <= s < stop_count && 0 <= t < buckets@[s]@.len() ==> (
                #[trigger] buckets@[s]@[t]).target < stop_count,
        decreases transfer_rows@.len() - row_index,
    {
        let row = &transfer_rows[row_index];
        let from = match index.get(&row.from_stop_id) {
            Some(from) => from,
            None => {
                proof {
                    lemma_unknown_stays(
                        names,
                        transfer_rows@,
                        row_index + 1,
                        transfer_rows@.len() as int,
                    );
                }
                return Err(AssemblyError::UnknownStopId(row.from_stop_id.clone()));
            },
        };
        let to = match index.get(&row.to_stop_id) {
            Some(to) => to,
            None => {
                proof {
                    lemma_unknown_stays(
                        names,
                        transfer_rows@,
                        row_index + 1,
                        transfer_rows@.len() as int,
                    );
                }
                return Err(AssemblyError::UnknownStopId(row.to_stop_id.clone()));
            },
        };
        let ghost before = buckets@;
        buckets[from].push(Transfer { target: to, time: Time::Finite(row.min_transfer_time) });
        proof {
            assert forall|s: int| 0 <= s < stop_count implies (#[trigger] buckets@[s])@
                == transfers_from(names, transfer_rows@, s, row_index + 1) by {
                if s != from {
                    assert(buckets@[s] == before[s]);
                }
            }
            assert forall|s: int, t: int|
                0 <= s < stop_count && 0 <= t < buckets@[s]@.len() implies (
            #[trigger] buckets@[s]@[t]).target < stop_count by {
                if s != from {
                    assert(buckets@[s] == before[s]);
                } else if t < before[s]@.len() {
                    assert(buckets@[s]@[t] == before[s]@[t]);
                }
            }
        }
        row_index += 1;
    }
    let ghost blocks = transfer_blocks(names, transfer_rows@);
    assert(contents(buckets@) =~= blocks);
    let (transfers, starts) = pack(&buckets);
    let mut stops: Vec<PartialStop> = Vec::new();
    let mut s: usize = 0;
    while s < stop_count
        invariant
            s <= stop_count,
            stop_count == names.len(),
            names == index.names(),
            buckets@.len() == stop_count,
            starts@.len() == stop_count,
            contents(buckets@) == blocks,
            stops@.len() == s,
            forall|t: int| 0 <= t < stop_count ==> (#[trigger] starts@[t]) == offset(blocks, t),
            forall|t: int|
                0 <= t < s ==> {
                    let stop = #[trigger] stops@[t];
                    &&& stop.id@ == names[t]
                    &&& stop.transfers_index_start == offset(blocks, t)
                    &&& stop.transfers_count == blocks[t].len()
                },
        decreases stop_count - s,
    {
        assert(blocks[s as int] == buckets@[s as int]@);
        stops.push(
            PartialStop {
                id: index.ids[s].clone(),
                transfers_count: buckets[s].len(),
                transfers_index_start: starts[s],
            },
        );
        s += 1;
    }
    proof {
        assert forall|i: int| 0 <= i < transfers@.len() implies (#[trigger] transfers@[i]).target
            < stops@.len() by {
            let place = crate::packing::lemma_entry_of_joined(blocks, i);
            assert(blocks[place.0] == buckets@[place.0]@);
            assert(buckets@[place.0]@[place.1].target < stop_count);
        }
        assert forall|s: int| 0 <= s < stops@.len() implies (
        #[trigger] stops@[s]).transfers_index_start + stops@[s].transfers_count
            <= transfers@.len() by {
            crate::packing::lemma_block_of_joined(blocks, s);
        }
    }
    Ok(GetStopsReturn { transfers, stops, index_by_stop_id: index })
}

/// A row of the stop-time table: one halt of one trip.
pub struct StopTimeRow {
    pub trip_id: String,
    pub stop_id: String,
    pub arrival_seconds: u64,
    pub departure_seconds: u64,
}

/// One run of a vehicle along a route: its id, and its stop time at each stop.
pub struct Trip {
    pub id: String,
    pub stop_times: Vec<StopTime>,
}

/// A trip as mathematics.
pub struct TripModel {
    pub id: Seq<char>,
    pub stop_times: Seq<StopTime>,
}

impl View for Trip {
    type V = TripModel;

    open spec fn view(&self) -> TripModel {
        TripModel { id: self.id@, stop_times: self.stop_times@ }
    }
}

/// The trips that visit one sequence of stops, in the order of their departure at the first.
pub struct TripsByStops {
    pub stops: Vec<usize>,
    pub trips: Vec<Trip>,
}

/// A stop sequence and its trips as mathematics.
pub struct RouteModel {
    pub stops: Seq<usize>,
    pub trips: Seq<TripModel>,
}

/// The trips as mathematics.
pub open spec fn trip_models(trips: Seq<Trip>) -> Seq<TripModel> {
    Seq::new(trips.len(), |t: int| trips[t]@)
}

impl View for TripsByStops {
    type V = RouteModel;

    open spec fn view(&self) -> RouteModel {
        RouteModel { stops: self.stops@, trips: trip_models(self.trips@) }
    }
}

/// The routes as mathematics.
pub open spec fn route_models(routes: Seq<TripsByStops>) -> Seq<RouteModel> {
    Seq::new(routes.len(), |r: int| routes[r]@)
}

/// What the stop-time table gives: the trips, grouped by the stop sequence that they visit.
pub struct GetRoutesReturn {
    /// One entry per stop sequence, in the order in which each sequence occurred first.
    pub trips_by_stops: Vec<TripsByStops>,
    /// The number of trips.
    pub trips_count: usize,
    /// The number of stop times of all trips.
    pub stop_times_count: usize,
    /// The number of stops of all trips, each trip counted by itself.
    pub route_stops_count: usize,
}

/// `a` comes before `b` where the two are compared byte by byte.
pub open spec fn bytes_before(a: Seq<u8>, b: Seq<u8>) -> bool
    decreases a.len(),
{
    if b.len() == 0 {
        false
    } else if a.len() == 0 {
        true
    } else if a[0] != b[0] {
        a[0] < b[0]
    } else {
        bytes_before(a.drop_first(), b.drop_first())
    }
}

/// Tells whether `a` comes before `b` where the two are compared byte by byte.
pub fn is_bytes_before(a: &[u8], b: &[u8]) -> (before: bool)
    ensures
        before == bytes_before(a@, b@),
{
    let mut i: usize = 0;
    assert(a@.skip(0) =~= a@);
    assert(b@.skip(0) =~= b@);
    while i < a.len() && i < b.len()
        invariant
            i <= a@.len(),
            i <= b@.len(),
            bytes_before(a@, b@) == bytes_before(a@.skip(i as int), b@.skip(i as int)),
        decreases a@.len() - i,
    {
        assert(a@.skip(i as int)[0] == a@[i as int]);
        assert(b@.skip(i as int)[0] == b@[i as int]);
        if a[i] != b[i] {
            return a[i] < b[i];
        }
        assert(a@.skip(i as int).drop_first() =~= a@.skip(i + 1));
        assert(b@.skip(i as int).drop_first() =~= b@.skip(i + 1));
        i += 1;
    }
    i < b.len()
}

/// Row `next` may follow row `previous` in a table ordered by trip id and departure.
pub open spec fn in_order(previous: StopTimeRow, next: StopTimeRow) -> bool {
    if previous.trip_id@ == next.trip_id@ {
        previous.departure_seconds <= next.departure_seconds
    } else {
        bytes_before(encode_utf8(previous.trip_id@), encode_utf8(next.trip_id@))
    }
}

/// What is wrong with a row of the stop-time table.
pub enum Fault {
    /// It names a stop with this id, which the stop table lacks.
    UnknownStop(Seq<char>),
    /// It breaks the order of the rows.
    OutOfOrder,
}

/// What is wrong with row `i`, if anything: an unknown stop comes before a broken order.
pub open spec fn fault_at(names: Seq<Seq<char>>, rows: Seq<StopTimeRow>, i: int) -> Option<Fault> {
    if !names.contains(rows[i].stop_id@) {
        Some(Fault::UnknownStop(rows[i].stop_id@))
    } else if i > 0 && !in_order(rows[i - 1], rows[i]) {
        Some(Fault::OutOfOrder)
    } else {
        None
    }
}

/// The first fault among the rows below `upto`.
pub open spec fn fault_in(names: Seq<Seq<char>>, rows: Seq<StopTimeRow>, upto: int) -> Option<
    Fault,
>
    decreases upto,
{
    if upto <= 0 {
        None
    } else {
        match fault_in(names, rows, upto - 1) {
            Some(fault) => Some(fault),
            None => fault_at(names, rows, upto - 1),
        }
    }
}

/// A fault that was found stays the first one when more rows are looked at.
pub proof fn lemma_fault_stays(names: Seq<Seq<char>>, rows: Seq<StopTimeRow>, found: int, upto: int)
    requires
        0 <= found <= upto,
        fault_in(names, rows, found) is Some,
    ensures
        fault_in(names, rows, upto) == fault_in(names, rows, found),
    decreases upto - found,
{
    if found < upto {
        lemma_fault_stays(names, rows, found, upto - 1);
    }
}

/// A trip together with the stops that it visits.
pub struct Run {
    pub stops: Vec<usize>,
    pub trip: Trip,
}

/// A trip and its stops as mathematics.
pub struct RunModel {
    pub stops: Seq<usize>,
    pub trip: TripModel,
}

impl View for Run {
    type V = RunModel;

    open spec fn view(&self) -> RunModel {
        RunModel { stops: self.stops@, trip: self.trip@ }
    }
}

/// The runs as mathematics.
pub open spec fn run_models(runs: Seq<Run>) -> Seq<RunModel> {
    Seq::new(runs.len(), |i: int| runs[i]@)
}

/// The stop time of a row.
pub open spec fn stop_time_of(row: StopTimeRow) -> StopTime {
    StopTime {
        arrival_time: Time::Finite(row.arrival_seconds),
        departure_time: Time::Finite(row.departure_seconds),
    }
}

/// The trips that the rows below `upto` describe, in the order of the rows: rows that follow
/// each other with one trip id make one trip.
pub open spec fn runs_of(names: Seq<Seq<char>>, rows: Seq<StopTimeRow>, upto: int) -> Seq<RunModel>
    decreases upto,
{
    if upto <= 0 {
        Seq::empty()
    } else {
        let before = runs_of(names, rows, upto - 1);
        let row = rows[upto - 1];
        let stop = stop_of(names, row.stop_id@).unwrap() as usize;
        if upto >= 2 && rows[upto - 2].trip_id@ == row.trip_id@ {
            let last = before.last();
            before.update(
                before.len() - 1,
                RunModel {
                    stops: last.stops.push(stop),
                    trip: TripModel {
                        id: last.trip.id,
                        stop_times: last.trip.stop_times.push(stop_time_of(row)),
                    },
                },
            )
        } else {
            before.push(
                RunModel {
                    stops: seq![stop],
                    trip: TripModel { id: row.trip_id@, stop_times: seq![stop_time_of(row)] },
                },
            )
        }
    }
}

/// The rank of the departure of a trip at its first stop; a trip without stops comes first.
pub open spec fn departs(trip: TripModel) -> int {
    if trip.stop_times.len() == 0 {
        -1
    } else {
        trip.stop_times[0].departure_time.rank()
    }
}

/// The first place among `trips` whose trip does not leave before `rank`.
pub open spec fn lower_bound(trips: Seq<TripModel>, rank: int) -> int
    decreases trips.len(),
{
    if trips.len() == 0 || departs(trips[0]) >= rank {
        0
    } else {
        1 + lower_bound(trips.drop_first(), rank)
    }
}

/// The first route, from `from` on, that visits exactly `stops`.
pub open spec fn route_with(routes: Seq<RouteModel>, stops: Seq<usize>, from: int) -> Option<int>
    decreases routes.len() - from,
{
    if from < 0 || from >= routes.len() {
        None
    } else if routes[from].stops == stops {
        Some(from)
    } else {
        route_with(routes, stops, from + 1)
    }
}

/// The routes after `run` was filed: with the route of its stop sequence, before the first
/// trip there that does not leave earlier than it, or as the first trip of a new route.
pub open spec fn filed(routes: Seq<RouteModel>, run: RunModel) -> Seq<RouteModel> {
    match route_with(routes, run.stops, 0) {
        Some(r) => routes.update(
            r,
            RouteModel {
                stops: routes[r].stops,
                trips: routes[r].trips.insert(
                    lower_bound(routes[r].trips, departs(run.trip)),
                    run.trip,
                ),
            },
        ),
        None => routes.push(RouteModel { stops: run.stops, trips: seq![run.trip] }),
    }
}

/// The routes after the runs below `upto` were filed, one after the other.
pub open spec fn routes_from(runs: Seq<RunModel>, upto: int) -> Seq<RouteModel>
    decreases upto,
{
    if upto <= 0 {
        Seq::empty()
    } else {
        filed(routes_from(runs, upto - 1), runs[upto - 1])
    }
}

impl PartialEq for Trip {
    /// Two trips are equal where they leave their first stop at the same time.
    fn eq(&self, other: &Trip) -> (equal: bool) {
        if self.stop_times.len() == 0 {
            other.stop_times.len() == 0
        } else if other.stop_times.len() == 0 {
            false
        } else {
            self.stop_times[0].departure_time == other.stop_times[0].departure_time
        }
    }
}

impl PartialEqSpecImpl for Trip {
    open spec fn obeys_eq_spec() -> bool {
        true
    }

    open spec fn eq_spec(&self, other: &Trip) -> bool {
        departs(self@) == departs(other@)
    }
}

impl PartialOrd for Trip {
    /// Trips are ordered by their departure at the first stop.
    fn partial_cmp(&self, other: &Trip) -> (order: Option<Ordering>) {
        if self.stop_times.len() == 0 {
            if other.stop_times.len() == 0 {
                Some(Ordering::Equal)
            } else {
                Some(Ordering::Less)
            }
        } else if other.stop_times.len() == 0 {
            Some(Ordering::Greater)
        } else {
            self.stop_times[0].departure_time.partial_cmp(&other.stop_times[0].departure_time)
        }
    }
}

impl PartialOrdSpecImpl for Trip {
    open spec fn obeys_partial_cmp_spec() -> bool {
        true
    }

    open spec fn partial_cmp_spec(&self, other: &Trip) -> Option<Ordering> {
        if departs(self@) < departs(other@) {
            Some(Ordering::Less)
        } else if departs(self@) == departs(other@) {
            Some(Ordering::Equal)
        } else {
            Some(Ordering::Greater)
        }
    }
}

/// Reads the rows into trips, each with the stops that it visits.
pub fn collect_runs(rows: &Vec<StopTimeRow>, index: &StopIndex) -> (result: Result<
    Vec<Run>,
    AssemblyError,
>)
    ensures
        match result {
            Ok(runs) => {
                &&& fault_in(index.names(), rows@, rows@.len() as int) is None
                &&& run_models(runs@) == runs_of(index.names(), rows@, rows@.len() as int)
            },
            Err(AssemblyError::UnknownStopId(id)) => fault_in(
                index.names(),
                rows@,
                rows@.len() as int,
            ) == Some(Fault::UnknownStop(id@)),
            Err(AssemblyError::MalformedTime(_)) => false,
            Err(AssemblyError::MissingOrdering) => fault_in(
                index.names(),
                rows@,
                rows@.len() as int,
            ) == Some(Fault::OutOfOrder),
        },
{
    let ghost names = index.names();
    let mut runs: Vec<Run> = Vec::new();
    let mut i: usize = 0;
    assert(run_models(runs@) =~= runs_of(names, rows@, 0));
    while i < rows.len()
        invariant
            i <= rows@.len(),
            names == index.names(),
            fault_in(names, rows@, i as int) is None,
            run_models(runs@) == runs_of(names, rows@, i as int),
            i > 0 ==> runs@.len() > 0,
        decreases rows@.len() - i,
    {
        let row = &rows[i];
        let stop = match index.get(&row.stop_id) {
            Some(stop) => stop,
            None => {
                proof {
                    lemma_fault_stays(names, rows@, i + 1, rows@.len() as int);
                }
                return Err(AssemblyError::UnknownStopId(row.stop_id.clone()));
            },
        };
        let mut same_trip = false;
        if i > 0 {
            let previous = &rows[i - 1];
            same_trip = previous.trip_id == row.trip_id;
            let ordered = if same_trip {
                previous.departure_seconds <= row.departure_seconds
            } else {
                is_bytes_before(previous.trip_id.as_str().as_bytes(), row.trip_id.as_str().as_bytes())
            };
            if !ordered {
                proof {
                    lemma_fault_stays(names, rows@, i + 1, rows@.len() as int);
                }
                return Err(AssemblyError::MissingOrdering);
            }
        }
        let time = StopTime {
            arrival_time: Time::Finite(row.arrival_seconds),
            departure_time: Time::Finite(row.departure_seconds),
        };
        let ghost before = run_models(runs@);
        if same_trip {
            let last = runs.len() - 1;
            runs[last].stops.push(stop);
            runs[last].trip.stop_times.push(time);
            assert(run_models(runs@) =~= runs_of(names, rows@, i + 1));
        } else {
            let mut stops: Vec<usize> = Vec::new();
            stops.push(stop);
            let mut stop_times: Vec<StopTime> = Vec::new();
            stop_times.push(time);
            runs.push(Run { stops, trip: Trip { id: row.trip_id.clone(), stop_times } });
            assert(runs@.last()@.stops =~= seq![stop]);
            assert(runs@.last()@.trip.stop_times =~= seq![time]);
            assert(run_models(runs@) =~= runs_of(names, rows@, i + 1));
        }
        i += 1;
    }
    Ok(runs)
}

/// Tells whether two stop sequences are the same.
pub fn same_stops(a: &Vec<usize>, b: &Vec<usize>) -> (same: bool)
    ensures
        same == (a@ == b@),
{
    if a.len() != b.len() {
        return false;
    }
    let mut i: usize = 0;
    while i < a.len()
        invariant
            a@.len() == b@.len(),
            i <= a@.len(),
            forall|j: int| 0 <= j < i ==> a@[j] == b@[j],
        decreases a@.len() - i,
    {
        if a[i] != b[i] {
            return false;
        }
        i += 1;
    }
    assert(a@ =~= b@);
    true
}

/// Files a trip with the route of its stop sequence, or opens a new route for it.
pub fn file_run(routes: &mut Vec<TripsByStops>, run: Run)
    ensures
        route_models(final(routes)@) == filed(route_models(old(routes)@), run@),
{
    let ghost models = route_models(routes@);
    let mut r: usize = 0;
    while r < routes.len()
        invariant
            r <= routes@.len(),
            routes@ == old(routes)@,
            models == route_models(routes@),
            route_with(models, run@.stops, 0) == route_with(models, run@.stops, r as int),
        decreases routes@.len() - r,
    {
        if same_stops(&routes[r].stops, &run.stops) {
            let ghost trips = models[r as int].trips;
            let ghost rank = departs(run@.trip);
            let mut place: usize = 0;
            assert(trips.skip(0) =~= trips);
            while place < routes[r].trips.len() && routes[r].trips[place] < run.trip
                invariant
                    r < routes@.len(),
                    routes@ == old(routes)@,
                    models == route_models(routes@),
                    trips == models[r as int].trips,
                    rank == departs(run@.trip),
                    place <= trips.len(),
                    lower_bound(trips, rank) == place + lower_bound(trips.skip(place as int), rank),
                decreases trips.len() - place,
            {
                assert(trips.skip(place as int)[0] == trips[place as int]);
                assert(trips.skip(place as int).drop_first() =~= trips.skip(place + 1));
                place += 1;
            }
            proof {
                if place < trips.len() {
                    assert(trips.skip(place as int)[0] == trips[place as int]);
                }
            }
            let Run { stops: _, trip } = run;
            routes[r].trips.insert(place, trip);
            assert(route_models(routes@)[r as int].trips =~= trips.insert(place as int, trip@));
            assert(route_models(routes@) =~= filed(models, run@));
            return ;
        }
        r += 1;
    }
    let Run { stops, trip } = run;
    let mut trips: Vec<Trip> = Vec::new();
    trips.push(trip);
    routes.push(TripsByStops { stops, trips });
    assert(routes@.last()@.trips =~= seq![run@.trip]);
    assert(route_models(routes@) =~= filed(models, run@));
}

/// The routes of the stop-time table: the trips, grouped by the stop sequence that they
/// visit, and in each group ordered by their departure at the first stop.
///
/// The rows are to be in the order of trip id and departure. Rows that follow each other
/// with one trip id make one trip. Each trip is filed with the trips of its stop sequence
/// before the first of them that does not leave earlier than it.
pub fn get_routes(rows: Vec<StopTimeRow>, index_by_stop_id: &StopIndex) -> (result: Result<
    GetRoutesReturn,
    AssemblyError,
>)
    ensures
        match result {
            Ok(found) => {
                let names = index_by_stop_id.names();
                let runs = runs_of(names, rows@, rows@.len() as int);
                &&& fault_in(names, rows@, rows@.len() as int) is None
                &&& route_models(found.trips_by_stops@) == routes_from(runs, runs.len() as int)
                &&& tidy(route_models(found.trips_by_stops@), names.len() as int)
                &&& found.trips_count == runs.len()
                &&& found.stop_times_count == rows@.len()
                &&& found.route_stops_count == rows@.len()
            },
            Err(AssemblyError::UnknownStopId(id)) => fault_in(
                index_by_stop_id.names(),
                rows@,
                rows@.len() as int,
            ) == Some(Fault::UnknownStop(id@)),
            Err(AssemblyError::MalformedTime(_)) => false,
            Err(AssemblyError::MissingOrdering) => fault_in(
                index_by_stop_id.names(),
                rows@,
                rows@.len() as int,
            ) == Some(Fault::OutOfOrder),
        },
{
    let runs = match collect_runs(&rows, index_by_stop_id) {
        Ok(runs) => runs,
        Err(error) => {
            return Err(error);
        },
    };
    let ghost all = run_models(runs@);
    let trips_count = runs.len();
    let mut pending = reversed(runs);
    let mut trips_by_stops: Vec<TripsByStops> = Vec::new();
    assert(route_models(trips_by_stops@) =~= routes_from(all, 0));
    while pending.len() > 0
        invariant
            pending@.len() <= all.len(),
            forall|i: int|
                0 <= i < pending@.len() ==> (#[trigger] pending@[i])@ == all[all.len() - 1 - i],
            route_models(trips_by_stops@) == routes_from(all, all.len() - pending@.len()),
        decreases pending@.len(),
    {
        let run = pending.pop().unwrap();
        file_run(&mut trips_by_stops, run);
    }
    proof {
        let names = index_by_stop_id.names();
        lemma_runs_fit(names, rows@, rows@.len() as int);
        lemma_routes_from_tidy(all, all.len() as int, names.len() as int);
    }
    Ok(
        GetRoutesReturn {
            trips_by_stops,
            trips_count,
            stop_times_count: rows.len(),
            route_stops_count: rows.len(),
        },
    )
}

/// The row of a stop-time record whose times are written as time stamps.
///
/// The arrival is read before the departure: where neither is a time stamp, the error is
/// that of the arrival.
pub fn stop_time_row(trip_id: String, stop_id: String, arrival: &str, departure: &str) -> (row:
    Result<StopTimeRow, AssemblyError>)
    ensures
        match row {
            Ok(row) => {
                &&& seconds_of(encode_utf8(arrival@)) == Ok::<u64, ParseTimeError>(
                    row.arrival_seconds,
                )
                &&& seconds_of(encode_utf8(departure@)) == Ok::<u64, ParseTimeError>(
                    row.departure_seconds,
                )
                &&& row.trip_id == trip_id
                &&& row.stop_id == stop_id
            },
            Err(AssemblyError::MalformedTime(error)) => {
                ||| seconds_of(encode_utf8(arrival@)) == Err::<u64, ParseTimeError>(error)
                ||| seconds_of(encode_utf8(arrival@)) is Ok && seconds_of(encode_utf8(departure@))
                    == Err::<u64, ParseTimeError>(error)
            },
            Err(_) => false,
        },
{
    let arrival_seconds = match crate::timestamp::Time::parse(arrival) {
        Ok(time) => time.total_seconds(),
        Err(error) => {
            return Err(AssemblyError::MalformedTime(error));
        },
    };
    let departure_seconds = match crate::timestamp::Time::parse(departure) {
        Ok(time) => time.total_seconds(),
        Err(error) => {
            return Err(AssemblyError::MalformedTime(error));
        },
    };
    Ok(StopTimeRow { trip_id, stop_id, arrival_seconds, departure_seconds })
}

} // verus!
