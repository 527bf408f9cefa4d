//! From the connections of the rounds back to an itinerary.

use std::collections::HashMap;
use vstd::prelude::*;
use vstd::std_specs::hash::group_hash_axioms;

use crate::engine::maps_of;
use crate::packing::reversed;
use crate::rounds::Connection;

verus! {

broadcast use group_hash_axioms;

/// One leg of an itinerary.
#[derive(Clone, Copy, Debug, PartialEq, Eq, Structural)]
pub enum Step {
    /// Ride trip `trip_number` of route `route` from one stop to another.
    Ride { route: usize, trip_number: usize, boarded_at_stop: usize, exited_at_stop: usize },
    /// Walk foot-path `transfer` of `from_stop`, which leads to `to_stop`.
    Walk { from_stop: usize, to_stop: usize, transfer: usize },
}

impl Step {
    /// The stop where the leg begins.
    pub open spec fn begins_at(self) -> usize {
        match self {
            Step::Ride { boarded_at_stop, .. } => boarded_at_stop,
            Step::Walk { from_stop, .. } => from_stop,
        }
    }

    /// The stop where the leg ends.
    pub open spec fn ends_at(self) -> usize {
        match self {
            Step::Ride { exited_at_stop, .. } => exited_at_stop,
            Step::Walk { to_stop, .. } => to_stop,
        }
    }
}

/// The legs, the last leg first, lead from `source` to `stop` without a gap: the first
/// begins at the source, each begins where the one before it ends, and the last ends at
/// the stop.
pub open spec fn leads(back: Seq<Step>, source: usize, stop: usize) -> bool {
    &&& back.len() > 0
    &&& back[0].ends_at() == stop
    &&& back.last().begins_at() == source
    &&& forall|i: int| 0 <= i < back.len() - 1 ==> (#[trigger] back[i]).begins_at() == back[i + 1].ends_at()
}

/// The legs that lead to `stop` in round `k`, the last leg first, found by following the
/// connections back for at most `fuel` legs.
///
/// A ride leads back to the stop where it was boarded, in the round before; a walk leads
/// back to the stop where it began, in the same round. The way back ends at the source, and
/// at the beginning of a walk that has no connection in its round. It fails where a stop
/// has no connection in its round, where it gets to round zero at another stop than the
/// source, and where the fuel runs out.
pub open spec fn way_back(
    rounds: Seq<Map<usize, Connection>>,
    source: usize,
    stop: usize,
    k: int,
    fuel: nat,
) -> Option<Seq<Step>>
    decreases fuel,
{
    if fuel == 0 || k < 1 || k > rounds.len() || !rounds[k - 1].contains_key(stop) {
        None
    } else {
        match rounds[k - 1][stop] {
            Connection::Connection { route, trip_number, boarded_at_stop, exited_at_stop } => {
                let step = Step::Ride { route, trip_number, boarded_at_stop, exited_at_stop };
                if boarded_at_stop == source {
                    Some(seq![step])
                } else {
                    match way_back(rounds, source, boarded_at_stop, k - 1, (fuel - 1) as nat) {
                        Some(before) => Some(seq![step] + before),
                        None => None,
                    }
                }
            },
            Connection::FootPath { source: from, transfer } => {
                let step = Step::Walk { from_stop: from, to_stop: stop, transfer };
                if from == source || !rounds[k - 1].contains_key(from) {
                    Some(seq![step])
                } else {
                    match way_back(rounds, source, from, k, (fuel - 1) as nat) {
                        Some(before) => Some(seq![step] + before),
                        None => None,
                    }
                }
            },
        }
    }
}

/// The number of connections of the rounds below `upto`.
pub open spec fn entries(rounds: Seq<Map<usize, Connection>>, upto: int) -> nat
    decreases upto,
{
    if upto <= 0 {
        0
    } else {
        entries(rounds, upto - 1) + rounds[upto - 1].len()
    }
}

/// The number of legs that a way back may take: the number of connections of all rounds, as
/// far as it fits the integer width.
pub open spec fn budget(rounds: Seq<Map<usize, Connection>>) -> nat {
    if entries(rounds, rounds.len() as int) > usize::MAX {
        usize::MAX as nat
    } else {
        entries(rounds, rounds.len() as int)
    }
}

/// The last round, counted from one, that has a connection for `stop`; zero where none has.
pub open spec fn last_round_with(rounds: Seq<Map<usize, Connection>>, stop: usize, upto: int) -> int
    decreases upto,
{
    if upto <= 0 {
        0
    } else if rounds[upto - 1].contains_key(stop) {
        upto
    } else {
        last_round_with(rounds, stop, upto - 1)
    }
}

/// The itinerary from `source` to `target`, the first leg first: no legs where the two are
/// one stop, else the way back from the last round that has a connection for the target,
/// turned around.
pub open spec fn itinerary(rounds: Seq<Map<usize, Connection>>, source: usize, target: usize)
    -> Option<Seq<Step>> {
    if source == target {
        Some(Seq::empty())
    } else {
        match way_back(
            rounds,
            source,
            target,
            last_round_with(rounds, target, rounds.len() as int),
            budget(rounds),
        ) {
            Some(back) => Some(back.reverse()),
            None => None,
        }
    }
}

/// Counts the connections of all rounds, as far as the count fits.
fn count_entries(rounds: &Vec<HashMap<usize, Connection>>) -> (count: usize)
    ensures
        count == budget(maps_of(rounds@)),
{
    let ghost maps = maps_of(rounds@);
    let mut count: usize = 0;
    let mut full = false;
    let mut i: usize = 0;
    while i < rounds.len()
        invariant
            i <= rounds@.len(),
            maps == maps_of(rounds@),
            !full ==> count == entries(maps, i as int),
            full ==> count == usize::MAX && entries(maps, i as int) > usize::MAX,
        decreases rounds@.len() - i,
    {
        let size = rounds[i].len();
        assert(maps[i as int].len() == size);
        if !full {
            match count.checked_add(size) {
                Some(sum) => {
                    count = sum;
                },
                None => {
                    count = usize::MAX;
                    full = true;
                },
            }
        }
        i += 1;
    }
    count
}

/// Follows the connections back from `target` in round `round`, counted from one, and
/// returns the legs in the order of travel.
pub fn journey_in_round(
    rounds: &Vec<HashMap<usize, Connection>>,
    source: usize,
    target: usize,
    round: usize,
) -> (legs: Option<Vec<Step>>)
    ensures
        match way_back(maps_of(rounds@), source, target, round as int, budget(maps_of(rounds@))) {
            Some(back) => legs matches Some(found) && found@ == back.reverse(),
            None => legs is None,
        },
{
    let ghost maps = maps_of(rounds@);
    let ghost whole = way_back(maps, source, target, round as int, budget(maps));
    let mut fuel = count_entries(rounds);
    let mut back: Vec<Step> = Vec::new();
    let mut stop = target;
    let mut k = round;
    let mut found = false;
    while !found
        invariant
            maps == maps_of(rounds@),
            whole == way_back(maps, source, target, round as int, budget(maps)),
            !found ==> whole == match way_back(maps, source, stop, k as int, fuel as nat) {
                Some(before) => Some(back@ + before),
                None => None,
            },
            found ==> whole == Some(back@),
        decreases
                fuel + if found {
                    0int
                } else {
                    1int
                },
    {
        if fuel == 0 || k < 1 || k > rounds.len() {
            return None;
        }
        assert(maps[k - 1] == rounds@[k - 1]@);
        let connection = match rounds[k - 1].get(&stop) {
            Some(connection) => *connection,
            None => {
                return None;
            },
        };
        let ghost so_far = back@;
        match connection {
            Connection::Connection { route, trip_number, boarded_at_stop, exited_at_stop } => {
                back.push(Step::Ride { route, trip_number, boarded_at_stop, exited_at_stop });
                if boarded_at_stop == source {
                    found = true;
                    assert(back@ =~= so_far + seq![back@.last()]);
                } else {
                    proof {
                        let before = way_back(
                            maps,
                            source,
                            boarded_at_stop,
                            k - 1,
                            (fuel - 1) as nat,
                        );
                        if before is Some {
                            assert(back@ + before.unwrap() =~= so_far + (seq![back@.last()]
                                + before.unwrap()));
                        }
                    }
                    stop = boarded_at_stop;
                    k = k - 1;
                }
            },
            Connection::FootPath { source: from, transfer } => {
                back.push(Step::Walk { from_stop: from, to_stop: stop, transfer });
                if from == source || !rounds[k - 1].contains_key(&from) {
                    found = true;
                    assert(back@ =~= so_far + seq![back@.last()]);
                } else {
                    proof {
                        let before = way_back(maps, source, from, k as int, (fuel - 1) as nat);
                        if before is Some {
                            assert(back@ + before.unwrap() =~= so_far + (seq![back@.last()]
                                + before.unwrap()));
                        }
                    }
                    stop = from;
                }
            },
        }
        fuel = fuel - 1;
    }
    let legs = reversed(back);
    assert(legs@ =~= back@.reverse());
    Some(legs)
}

/// The journey from `source` to `target` that the rounds of a query describe, as legs in
/// the order of travel: no legs where the two are one stop, else the legs that lead to the
/// target in the last round that reached it. There is none where no round reached the
/// target, and where the connections do not lead back to the source.
pub fn reconstruct(rounds: &Vec<HashMap<usize, Connection>>, source: usize, target: usize) -> (legs:
    Option<Vec<Step>>)
    ensures
        match itinerary(maps_of(rounds@), source, target) {
            Some(steps) => legs matches Some(found) && found@ == steps,
            None => legs is None,
        },
{
    if source == target {
        return Some(Vec::new());
    }
    let ghost maps = maps_of(rounds@);
    let mut round = rounds.len();
    while round > 0 && !rounds[round - 1].contains_key(&target)
        invariant
            round <= rounds@.len(),
            maps == maps_of(rounds@),
            last_round_with(maps, target, rounds@.len() as int) == last_round_with(
                maps,
                target,
                round as int,
            ),
        decreases round,
    {
        assert(maps[round - 1] == rounds@[round - 1]@);
        round -= 1;
    }
    proof {
        if round > 0 {
            assert(maps[round - 1] == rounds@[round - 1]@);
        }
    }
    journey_in_round(rounds, source, target, round)
}

} // verus!
