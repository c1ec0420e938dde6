//! Time: how long to think, and how long the engine has been thinking.

use vstd::prelude::*;

use crate::types::Color;

verus! {

/// An instant of the monotonic clock of `std::time`.
#[verifier::external_type_specification]
#[verifier::external_body]
pub struct ExInstant(std::time::Instant);

/// The present instant, from `std::time::Instant::now`.  Nothing is claimed of it.
#[verifier::external_body]
pub(crate) fn now() -> (r: std::time::Instant) {
    std::time::Instant::now()
}

/// The whole milliseconds since an instant, from `std::time::Instant::elapsed`.
/// The result depends on when it is asked for, so nothing is claimed of it.
#[verifier::external_body]
pub(crate) fn millis_since(start: &std::time::Instant) -> (r: u64) {
    start.elapsed().as_millis() as u64
}

/// The constraints that a `go` command places on a search.
#[derive(Clone, Copy, Debug)]
pub struct SearchLimits {
    /// Search this many plies deep and stop.
    pub depth: Option<u32>,
    /// Spend at most this many milliseconds on the move.
    pub movetime_ms: Option<u64>,
    /// White's remaining clock in milliseconds.
    pub wtime: Option<u64>,
    /// Black's remaining clock in milliseconds.
    pub btime: Option<u64>,
    /// White's increment for each move in milliseconds.
    pub winc: Option<u64>,
    /// Black's increment for each move in milliseconds.
    pub binc: Option<u64>,
    /// Moves left until the next time control.
    pub movestogo: Option<u32>,
    /// Stop after this many nodes.
    pub nodes: Option<u64>,
    /// Search until told to stop.
    pub infinite: bool,
}

impl Default for SearchLimits {
    fn default() -> (r: SearchLimits)
        ensures
            r == SearchLimits::unlimited(),
    {
        SearchLimits {
            depth: None,
            movetime_ms: None,
            wtime: None,
            btime: None,
            winc: None,
            binc: None,
            movestogo: None,
            nodes: None,
            infinite: false,
        }
    }
}

impl SearchLimits {
    /// No constraint at all.
    pub open spec fn unlimited() -> SearchLimits {
        SearchLimits {
            depth: None,
            movetime_ms: None,
            wtime: None,
            btime: None,
            winc: None,
            binc: None,
            movestogo: None,
            nodes: None,
            infinite: false,
        }
    }

    /// A player's remaining clock.
    pub open spec fn clock_of(&self, side: Color) -> Option<u64> {
        match side {
            Color::White => self.wtime,
            Color::Black => self.btime,
        }
    }

    /// A player's increment, zero if none is given.
    pub open spec fn increment_of(&self, side: Color) -> int {
        match side {
            Color::White => match self.winc {
                Some(x) => x as int,
                None => 0,
            },
            Color::Black => match self.binc {
                Some(x) => x as int,
                None => 0,
            },
        }
    }

    /// The most that may be spent of a clock: two fifths of it.
    pub open spec fn share(time: int) -> int {
        (if 2 * time > u64::MAX {
            u64::MAX as int
        } else {
            2 * time
        }) / 5
    }

    /// The milliseconds to think: a given time as it is, or a twentieth of the clock
    /// and half the increment, but no more than two fifths of the clock and no less
    /// than five.
    pub open spec fn budget(&self, side: Color) -> Option<int> {
        match self.movetime_ms {
            Some(mt) => Some(mt as int),
            None => if self.infinite {
                None
            } else {
                match self.clock_of(side) {
                    None => None,
                    Some(time) => {
                        let plan = time as int / 20 + self.increment_of(side) / 2;
                        let capped = if plan < SearchLimits::share(time as int) {
                            plan
                        } else {
                            SearchLimits::share(time as int)
                        };
                        Some(
                            if capped > 5 {
                                capped
                            } else {
                                5
                            },
                        )
                    },
                }
            },
        }
    }
}

/// The milliseconds to think, or `None` if there is no clock to respect.
pub fn time_budget(side: Color, limits: &SearchLimits) -> (r: Option<u64>)
    ensures
        match r {
            Some(ms) => limits.budget(side) == Some(ms as int),
            None => limits.budget(side) is None,
        },
{
    if let Some(mt) = limits.movetime_ms {
        return Some(mt);
    }
    if limits.infinite {
        return None;
    }
    let (time, inc): (Option<u64>, u64) = match side {
        Color::White => (
            limits.wtime,
            match limits.winc {
                Some(x) => x,
                None => 0,
            },
        ),
        Color::Black => (
            limits.btime,
            match limits.binc {
                Some(x) => x,
                None => 0,
            },
        ),
    };
    match time {
        None => None,
        Some(t) => {
            let plan: u64 = t / 20 + inc / 2;
            let twice: u64 = if t > u64::MAX / 2 {
                u64::MAX
            } else {
                2 * t
            };
            let share: u64 = twice / 5;
            let mut budget: u64 = if plan < share {
                plan
            } else {
                share
            };
            if budget < 5 {
                budget = 5;
            }
            Some(budget)
        },
    }
}

/// From the clock no more than two fifths of the remaining time is spent on a
/// move, except that five milliseconds are always allowed.
pub proof fn law_budget_within_clock(limits: SearchLimits, side: Color)
    requires
        limits.movetime_ms is None,
        limits.budget(side) is Some,
    ensures
        limits.clock_of(side) is Some,
        5 <= limits.budget(side)->0,
        limits.budget(side)->0 <= 5 || 5 * limits.budget(side)->0 <= 2 * limits.clock_of(side)->0,
{
}

/// A given time is used as it is, whatever the clocks and increments say and even if
/// the search is to be endless.
pub proof fn law_movetime_respected(limits: SearchLimits, side: Color)
    requires
        limits.movetime_ms is Some,
    ensures
        limits.budget(side) == Some(limits.movetime_ms->0 as int),
{
}

/// The players are treated alike: exchanging the clocks and the increments together with
/// the players changes nothing.
pub proof fn law_budget_is_color_blind(l: SearchLimits, side: Color)
    ensures
        l.budget(side) == (SearchLimits {
            wtime: l.btime,
            btime: l.wtime,
            winc: l.binc,
            binc: l.winc,
            ..l
        }).budget(side.other()),
{
}

/// A player plans with the own clock and increment, whatever the opponent has left.
pub proof fn law_budget_ignores_the_opponent(l: SearchLimits, time: Option<u64>, inc: Option<u64>)
    ensures
        l.budget(Color::White) == (SearchLimits { btime: time, binc: inc, ..l }).budget(
            Color::White,
        ),
        l.budget(Color::Black) == (SearchLimits { wtime: time, winc: inc, ..l }).budget(
            Color::Black,
        ),
{
}

/// From a clock of `time` and an increment of `inc` a player spends a twentieth of the
/// clock and half the increment, unless that is more than two fifths of the clock, which
/// are then spent, or less than five milliseconds, which are always allowed.
pub proof fn law_budget_from_the_clock(l: SearchLimits, time: u64, inc: u64)
    requires
        l.movetime_ms is None,
        !l.infinite,
        2 * time <= u64::MAX,
    ensures
        l.wtime == Some(time) && (l.winc == Some(inc) || l.winc is None && inc == 0)
            ==> spends(l.budget(Color::White), time as int, inc as int),
        l.btime == Some(time) && (l.binc == Some(inc) || l.binc is None && inc == 0)
            ==> spends(l.budget(Color::Black), time as int, inc as int),
{
}

/// The budget is the one that a clock and an increment call for.
pub open spec fn spends(budget: Option<int>, time: int, inc: int) -> bool {
    &&& budget is Some
    &&& 5 <= time / 20 + inc / 2 <= 2 * time / 5 ==> budget->0 == time / 20 + inc / 2
    &&& 5 <= 2 * time / 5 <= time / 20 + inc / 2 ==> budget->0 == 2 * time / 5
    &&& time / 20 + inc / 2 <= 5 || 2 * time / 5 <= 5 ==> budget->0 == 5
}

/// There is a budget exactly if a time is given, or the player has a clock and the
/// search is not to be endless.
pub proof fn law_budget_needs_a_clock(l: SearchLimits)
    ensures
        l.budget(Color::White) is Some <==> l.movetime_ms is Some || (!l.infinite && l.wtime
            is Some),
        l.budget(Color::Black) is Some <==> l.movetime_ms is Some || (!l.infinite && l.btime
            is Some),
{
}

/// A player with more time, or a larger increment, thinks no less.
pub proof fn law_budget_grows_with_the_clock(l: SearchLimits, time: u64, inc: u64, side: Color)
    requires
        l.wtime is Some && l.wtime->0 <= time,
        l.btime is Some && l.btime->0 <= time,
        l.winc is Some ==> l.winc->0 <= inc,
        l.binc is Some ==> l.binc->0 <= inc,
        l.budget(side) is Some,
    ensures
        l.budget(side)->0 <= (SearchLimits {
            wtime: Some(time),
            btime: Some(time),
            winc: Some(inc),
            binc: Some(inc),
            ..l
        }).budget(side)->0,
{
}

/// A search goes on as long as nobody stops it and neither its nodes nor its time are
/// spent, and ends with each of the three.
pub proof fn law_searches_end_when_spent(
    nodes: u64,
    node_limit: Option<u64>,
    spent_ms: u64,
    budget_ms: Option<u64>,
    limit: u64,
)
    ensures
        spent_out(true, nodes, node_limit, spent_ms, budget_ms),
        !spent_out(false, nodes, None, spent_ms, None),
        spent_out(false, nodes, Some(limit), spent_ms, None) <==> limit <= nodes,
        spent_out(false, nodes, None, spent_ms, Some(limit)) <==> limit <= spent_ms,
        spent_out(false, nodes, node_limit, spent_ms, None) || spent_out(
            false,
            nodes,
            None,
            spent_ms,
            budget_ms,
        ) <==> spent_out(false, nodes, node_limit, spent_ms, budget_ms),
{
}

/// The search must stop: it was told to, or it has spent its nodes or its time.
pub open spec fn spent_out(
    flag: bool,
    nodes: u64,
    node_limit: Option<u64>,
    spent_ms: u64,
    budget_ms: Option<u64>,
) -> bool {
    ||| flag
    ||| node_limit is Some && nodes >= node_limit->0
    ||| budget_ms is Some && spent_ms >= budget_ms->0
}

/// Must the search stop, given what it has spent?
pub fn must_stop(
    flag: bool,
    nodes: u64,
    node_limit: Option<u64>,
    spent_ms: u64,
    budget_ms: Option<u64>,
) -> (r: bool)
    ensures
        r == spent_out(flag, nodes, node_limit, spent_ms, budget_ms),
{
    if flag {
        return true;
    }
    if let Some(limit) = node_limit {
        if nodes >= limit {
            return true;
        }
    }
    if let Some(budget) = budget_ms {
        if spent_ms >= budget {
            return true;
        }
    }
    false
}

/// By default there is no limit of any kind.
pub proof fn law_no_limits_by_default()
    ensures
        SearchLimits::unlimited().budget(Color::White) is None,
        SearchLimits::unlimited().budget(Color::Black) is None,
        SearchLimits::unlimited().depth is None,
        SearchLimits::unlimited().nodes is None,
{
}

} // verus!
