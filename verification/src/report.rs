//! The rounds of an answer prepared for display: the stops that they mention, and the rides
//! of a round as rows.

use std::collections::HashMap;
use vstd::prelude::*;
use vstd::std_specs::hash::group_hash_axioms;
use vstd::string::StringExecFns;

use crate::engine::maps_of;
use crate::rounds::Connection;
use crate::text::{decimal, push_decimal};

verus! {

broadcast use group_hash_axioms;

/// A ride that reached a stop, as a row of the result table.
#[derive(Clone, Copy, Debug, PartialEq, Eq, Structural)]
pub struct RideRow {
    /// The stop that the ride reached.
    pub stop: usize,
    pub route: usize,
    pub trip_number: usize,
    pub boarded_at_stop: usize,
    pub exited_at_stop: usize,
}

/// The rides among the connections of the stops below `upto`, in the order of the stops.
pub open spec fn rides_below(round: Map<usize, Connection>, upto: int) -> Seq<RideRow>
    decreases upto,
{
    if upto <= 0 {
        Seq::empty()
    } else {
        let before = rides_below(round, upto - 1);
        let stop = (upto - 1) as usize;
        if round.contains_key(stop) {
            match round[stop] {
                Connection::Connection {
                    route,
                    trip_number,
                    boarded_at_stop,
                    exited_at_stop,
                } => before.push(
                    RideRow { stop, route, trip_number, boarded_at_stop, exited_at_stop },
                ),
                Connection::FootPath { .. } => before,
            }
        } else {
            before
        }
    }
}

/// The rides of a round as rows, in the order of the stops that they reached. Stops that
/// were walked to have no row.
pub fn rides_in_round(round: &HashMap<usize, Connection>, stop_count: usize) -> (rows: Vec<
    RideRow,
>)
    ensures
        rows@ == rides_below(round@, stop_count as int),
{
    let mut rows: Vec<RideRow> = Vec::new();
    let mut stop: usize = 0;
    while stop < stop_count
        invariant
            stop <= stop_count,
            rows@ == rides_below(round@, stop as int),
        decreases stop_count - stop,
    {
        if let Some(connection) = round.get(&stop) {
            if let Connection::Connection {
                route,
                trip_number,
                boarded_at_stop,
                exited_at_stop,
            } = *connection {
                rows.push(RideRow { stop, route, trip_number, boarded_at_stop, exited_at_stop });
            }
        }
        stop += 1;
    }
    rows
}

/// The connection of stop `key` mentions stop `x`: as the stop itself, or as the stop where
/// a ride was boarded or left.
pub open spec fn names(round: Map<usize, Connection>, key: usize, x: usize) -> bool {
    round.contains_key(key) && (key == x || match round[key] {
        Connection::Connection { boarded_at_stop, exited_at_stop, .. } => boarded_at_stop == x
            || exited_at_stop == x,
        Connection::FootPath { .. } => false,
    })
}

/// One of the rounds below `upto` mentions stop `x` in the connection of a stop below
/// `stop_count`.
pub open spec fn mentioned(
    rounds: Seq<Map<usize, Connection>>,
    stop_count: int,
    upto: int,
    x: usize,
) -> bool {
    exists|k: int, key: usize|
        0 <= k < upto && key < stop_count && #[trigger] names(rounds[k], key, x)
}

/// The stops below `stop_count` that the rounds mention, each once, in ascending order.
pub fn stops_mentioned(rounds: &Vec<HashMap<usize, Connection>>, stop_count: usize) -> (stops:
    Vec<usize>)
    ensures
        forall|i: int, j: int| 0 <= i < j < stops@.len() ==> stops@[i] < stops@[j],
        forall|x: usize|
            stops@.contains(x) <==> x < stop_count && mentioned(
                maps_of(rounds@),
                stop_count as int,
                rounds@.len() as int,
                x,
            ),
{
    let ghost maps = maps_of(rounds@);
    let mut seen: Vec<bool> = Vec::new();
    while seen.len() < stop_count
        invariant
            seen@.len() <= stop_count,
            forall|x: int| 0 <= x < seen@.len() ==> !seen@[x],
        decreases stop_count - seen@.len(),
    {
        seen.push(false);
    }
    let mut k: usize = 0;
    while k < rounds.len()
        invariant
            k <= rounds@.len(),
            maps == maps_of(rounds@),
            seen@.len() == stop_count,
            forall|x: usize|
                x < stop_count ==> (#[trigger] seen@[x as int] <==> mentioned(
                    maps,
                    stop_count as int,
                    k as int,
                    x,
                )),
        decreases rounds@.len() - k,
    {
        let round = &rounds[k];
        assert(maps[k as int] == round@);
        let mut key: usize = 0;
        while key < stop_count
            invariant
                key <= stop_count,
                k < rounds@.len(),
                maps == maps_of(rounds@),
                maps[k as int] == round@,
                seen@.len() == stop_count,
                forall|x: usize|
                    x < stop_count ==> (#[trigger] seen@[x as int] <==> (mentioned(
                        maps,
                        stop_count as int,
                        k as int,
                        x,
                    ) || exists|other: usize| other < key && #[trigger] names(round@, other, x))),
            decreases stop_count - key,
        {
            let ghost before = seen@;
            if let Some(connection) = round.get(&key) {
                seen.set(key, true);
                if let Connection::Connection { boarded_at_stop, exited_at_stop, .. } = *connection {
                    if boarded_at_stop < stop_count {
                        seen.set(boarded_at_stop, true);
                    }
                    if exited_at_stop < stop_count {
                        seen.set(exited_at_stop, true);
                    }
                }
            }
            proof {
                assert forall|x: usize| x < stop_count implies (#[trigger] seen@[x as int] <==> (
                mentioned(maps, stop_count as int, k as int, x) || exists|other: usize|
                    other < key + 1 && #[trigger] names(round@, other, x))) by {
                    let earlier = exists|other: usize|
                        other < key && #[trigger] names(round@, other, x);
                    let now = exists|other: usize|
                        other < key + 1 && #[trigger] names(round@, other, x);
                    if names(round@, key, x) {
                        assert(now);
                        assert(seen@[x as int]);
                    } else {
                        assert(seen@[x as int] == before[x as int]);
                        if now {
                            let other = choose|other: usize|
                                other < key + 1 && #[trigger] names(round@, other, x);
                            assert(other < key);
                            assert(earlier);
                        }
                    }
                    if earlier {
                        let other = choose|other: usize|
                            other < key && #[trigger] names(round@, other, x);
                        assert(other < key + 1);
                        assert(now);
                    }
                }
            }
            key += 1;
        }
        proof {
            assert forall|x: usize| x < stop_count implies (#[trigger] seen@[x as int]
                <==> mentioned(maps, stop_count as int, k + 1, x)) by {
                let here = exists|other: usize|
                    other < stop_count && #[trigger] names(round@, other, x);
                if mentioned(maps, stop_count as int, k as int, x) {
                    let (j, other) = choose|j: int, other: usize|
                        0 <= j < k && other < stop_count && #[trigger] names(maps[j], other, x);
                    assert(0 <= j < k + 1 && names(maps[j], other, x));
                }
                if here {
                    let other = choose|other: usize|
                        other < stop_count && #[trigger] names(round@, other, x);
                    assert(names(maps[k as int], other, x));
                }
                if mentioned(maps, stop_count as int, k + 1, x) {
                    let (j, other) = choose|j: int, other: usize|
                        0 <= j < k + 1 && other < stop_count && #[trigger] names(
                            maps[j],
                            other,
                            x,
                        );
                    if j < k {
                        assert(mentioned(maps, stop_count as int, k as int, x));
                    } else {
                        assert(names(round@, other, x));
                    }
                }
            }
        }
        k += 1;
    }
    let mut stops: Vec<usize> = Vec::new();
    let mut x: usize = 0;
    while x < stop_count
        invariant
            x <= stop_count,
            seen@.len() == stop_count,
            forall|i: int, j: int| 0 <= i < j < stops@.len() ==> stops@[i] < stops@[j],
            forall|i: int| 0 <= i < stops@.len() ==> (#[trigger] stops@[i]) < x,
            forall|y: usize| stops@.contains(y) <==> y < x && seen@[y as int],
        decreases stop_count - x,
    {
        if seen[x] {
            let ghost before = stops@;
            stops.push(x);
            proof {
                assert forall|y: usize| stops@.contains(y) <==> y < x + 1 && seen@[y as int] by {
                    if stops@.contains(y) {
                        let i = choose|i: int| 0 <= i < stops@.len() && stops@[i] == y;
                        if i < before.len() {
                            assert(before[i] == y);
                            assert(before.contains(y));
                        }
                    }
                    if y < x + 1 && seen@[y as int] {
                        if y < x {
                            assert(before.contains(y));
                            let i = choose|i: int| 0 <= i < before.len() && before[i] == y;
                            assert(stops@[i] == y);
                        } else {
                            assert(stops@[before.len() as int] == y);
                        }
                    }
                }
            }
        }
        x += 1;
    }
    stops
}

/// The numbered placeholders `?1, ?2` and so on up to `count`, with commas between them.
pub open spec fn placeholders(count: nat) -> Seq<char>
    decreases count,
{
    if count == 0 {
        Seq::empty()
    } else if count == 1 {
        "?"@ + decimal(1)
    } else {
        placeholders((count - 1) as nat) + ", ?"@ + decimal(count)
    }
}

/// Writes the placeholders for `count` values of a query.
pub fn query_parameters(count: usize) -> (text: String)
    ensures
        text@ == placeholders(count as nat),
{
    let mut text = String::new();
    let mut index: usize = 0;
    while index < count
        invariant
            index <= count,
            text@ == placeholders(index as nat),
        decreases count - index,
    {
        index += 1;
        if index == 1 {
            text.append("?");
        } else {
            text.append(", ?");
        }
        push_decimal(&mut text, index as u64);
    }
    text
}

} // verus!
