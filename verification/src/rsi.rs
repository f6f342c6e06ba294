//! The schedule of the relative strength index: which closes open it, which
//! are gathered, which give the first averages and which are smoothed in. The
//! averages themselves are kept by whoever carries the steps out.
use vstd::prelude::*;

verus! {

/// How many price changes go into the first averages.
pub const RSI_PERIOD: u32 = 14;

/// How a close differs from the one before it.
#[derive(Debug, Clone, Copy, PartialEq, Eq, Structural)]
pub enum Change {
    Flat,
    Gain { from: u64, to: u64 },
    Loss { from: u64, to: u64 },
}

/// What a close means for the index.
#[derive(Debug, Clone, Copy, PartialEq, Eq, Structural)]
pub enum RsiStep {
    /// There is no earlier close to compare with.
    First,
    /// The change is added to the sums; there is no value yet.
    Warmup(Change),
    /// The change is added to the sums, which give the first averages and a value.
    Seed(Change),
    /// The change is smoothed into the averages, which give a value.
    Smooth(Change),
}

/// The change from one close to the next.
pub open spec fn change(from: u64, to: u64) -> Change {
    if to > from {
        Change::Gain { from, to }
    } else if to < from {
        Change::Loss { from, to }
    } else {
        Change::Flat
    }
}

impl RsiStep {
    /// Whether the index has a value at this step.
    pub open spec fn spec_has_value(self) -> bool {
        self is Seed || self is Smooth
    }

    /// Whether the index has a value at this step.
    pub fn has_value(&self) -> (due: bool)
        ensures
            due == self.spec_has_value(),
    {
        match self {
            RsiStep::Seed(_) | RsiStep::Smooth(_) => true,
            RsiStep::First | RsiStep::Warmup(_) => false,
        }
    }
}

/// Where in the schedule a series of closes stands.
#[derive(Debug, Clone, Copy, PartialEq, Eq, Structural)]
pub struct RsiState {
    pub prev_close: Option<u64>,
    pub warmup_count: u32,
}

impl Default for RsiState {
    fn default() -> (state: RsiState)
        ensures
            state == RsiState::fresh(),
    {
        RsiState { prev_close: None, warmup_count: 0 }
    }
}

impl RsiState {
    /// Before the first close.
    pub open spec fn fresh() -> RsiState {
        RsiState { prev_close: None, warmup_count: 0 }
    }

    /// The state after one more close.
    pub open spec fn after(self, close: u64) -> RsiState {
        RsiState {
            prev_close: Some(close),
            warmup_count: if self.prev_close is Some && self.warmup_count < RSI_PERIOD {
                (self.warmup_count + 1) as u32
            } else {
                self.warmup_count
            },
        }
    }

    /// What one more close means.
    pub open spec fn step(self, close: u64) -> RsiStep {
        match self.prev_close {
            None => RsiStep::First,
            Some(prev) => if self.warmup_count + 1 < RSI_PERIOD {
                RsiStep::Warmup(change(prev, close))
            } else if self.warmup_count < RSI_PERIOD {
                RsiStep::Seed(change(prev, close))
            } else {
                RsiStep::Smooth(change(prev, close))
            },
        }
    }

    /// Takes one more close.
    pub fn on_close(&mut self, close: u64) -> (step: RsiStep)
        ensures
            step == old(self).step(close),
            *final(self) == old(self).after(close),
    {
        let prev: u64 = match self.prev_close {
            Some(prev) => prev,
            None => {
                self.prev_close = Some(close);
                return RsiStep::First;
            },
        };
        let moved: Change = if close > prev {
            Change::Gain { from: prev, to: close }
        } else if close < prev {
            Change::Loss { from: prev, to: close }
        } else {
            Change::Flat
        };
        self.prev_close = Some(close);
        if self.warmup_count < RSI_PERIOD {
            self.warmup_count = self.warmup_count + 1;
            if self.warmup_count < RSI_PERIOD {
                return RsiStep::Warmup(moved);
            }
            return RsiStep::Seed(moved);
        }
        RsiStep::Smooth(moved)
    }
}

/// The state after a whole series of closes.
pub open spec fn after_closes(closes: Seq<u64>) -> RsiState
    decreases closes.len(),
{
    if closes.len() == 0 {
        RsiState::fresh()
    } else {
        after_closes(closes.drop_last()).after(closes.last())
    }
}

/// After `n` closes, the next one opens the series if `n` is none, is only
/// gathered while `n` is below the period, gives the first value when `n` is
/// the period, and is smoothed in from there on. It is always compared with
/// the close right before it.
pub proof fn law_rsi_schedule(closes: Seq<u64>, close: u64)
    ensures
        after_closes(closes).step(close) == if closes.len() == 0 {
            RsiStep::First
        } else if closes.len() < RSI_PERIOD {
            RsiStep::Warmup(change(closes.last(), close))
        } else if closes.len() == RSI_PERIOD {
            RsiStep::Seed(change(closes.last(), close))
        } else {
            RsiStep::Smooth(change(closes.last(), close))
        },
        after_closes(closes).step(close).spec_has_value() <==> closes.len() >= RSI_PERIOD,
{
    lemma_after_closes(closes);
}

proof fn lemma_after_closes(closes: Seq<u64>)
    ensures
        closes.len() == 0 ==> after_closes(closes) == RsiState::fresh(),
        closes.len() > 0 ==> after_closes(closes).prev_close == Some(closes.last()),
        closes.len() > 0 ==> after_closes(closes).warmup_count == if closes.len() <= RSI_PERIOD {
            closes.len() - 1
        } else {
            RSI_PERIOD as int
        },
    decreases closes.len(),
{
    if closes.len() > 0 {
        lemma_after_closes(closes.drop_last());
    }
}

/// By how much prices rise with a change.
pub open spec fn rise(moved: Change) -> int {
    match moved {
        Change::Gain { from, to } => to - from,
        Change::Loss { .. } | Change::Flat => 0,
    }
}

/// By how much prices fall with a change.
pub open spec fn fall(moved: Change) -> int {
    match moved {
        Change::Loss { from, to } => from - to,
        Change::Gain { .. } | Change::Flat => 0,
    }
}

/// A change is a gain, a loss or neither just as the later close is higher, lower
/// or the same, and holds the two closes. Gain less loss is the difference of
/// the closes, and one of the two is nothing.
pub proof fn law_change_is_the_difference(from: u64, to: u64)
    ensures
        change(from, to) is Gain <==> from < to,
        change(from, to) is Loss <==> to < from,
        change(from, to) is Flat <==> from == to,
        change(from, to) matches Change::Gain { from: a, to: b } ==> a == from && b == to,
        change(from, to) matches Change::Loss { from: a, to: b } ==> a == from && b == to,
        rise(change(from, to)) - fall(change(from, to)) == to - from,
        rise(change(from, to)) >= 0 && fall(change(from, to)) >= 0,
        rise(change(from, to)) == 0 || fall(change(from, to)) == 0,
{
}

/// The change that a step is about.
pub open spec fn change_in(step: RsiStep) -> Option<Change> {
    match step {
        RsiStep::First => None,
        RsiStep::Warmup(moved) | RsiStep::Seed(moved) | RsiStep::Smooth(moved) => Some(moved),
    }
}

/// In a series of closes, the step of each but the first is about the change
/// from the close before it: a gain just where it is higher, a loss just where
/// it is lower. The first fourteen closes have no value; the fifteenth is the
/// first that has one, and every later one has one.
pub proof fn law_steps_of_closes(closes: Seq<u64>, close: u64)
    ensures
        ({
            let step = after_closes(closes).step(close);
            &&& closes.len() == 0 <==> step is First
            &&& 1 <= closes.len() < 14 <==> step is Warmup
            &&& closes.len() == 14 <==> step is Seed
            &&& closes.len() > 14 <==> step is Smooth
            &&& closes.len() > 0 ==> {
                let prev = closes.last();
                let moved = change_in(step)->0;
                &&& change_in(step) is Some
                &&& close > prev ==> moved == (Change::Gain { from: prev, to: close })
                &&& close < prev ==> moved == (Change::Loss { from: prev, to: close })
                &&& close == prev ==> moved == Change::Flat
                &&& rise(moved) - fall(moved) == close - prev
            }
            &&& step.spec_has_value() <==> closes.len() >= 14
        }),
{
    law_rsi_schedule(closes, close);
}

/// Whatever the state, a step compares the close with the one before it, and the
/// close is then the one that the next is compared with.
pub proof fn law_step_compares_neighbours(state: RsiState, close: u64, next: u64)
    ensures
        state.after(close).prev_close == Some(close),
        state.prev_close is None <==> state.step(close) is First,
        state.prev_close matches Some(prev) ==> change_in(state.step(close)) == Some(
            change(prev, close),
        ),
        change_in(state.after(close).step(next)) == Some(change(close, next)),
{
}

} // verus!
