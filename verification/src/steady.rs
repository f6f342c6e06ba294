//! What is true of a symbol's state between trades, as long as trades come in
//! order: everything current belongs to the last trade, and the sums stay far
//! within the machine's numbers, except for what the trades themselves add up to.
use vstd::prelude::*;

use crate::clock::{MSEC_PER_DAY, MSEC_PER_HOUR};
use crate::hour::{hour_of, lemma_hours_ascend, lemma_product_fits, HourAgg};
use crate::minute::{lemma_minutes_ascend, minute_of};
use crate::parse::{ParsedTick, Tick};
use crate::symbol::{SymbolAgg, SymbolState};

verus! {

impl SymbolState {
    /// Either nothing is current, or an hour and a minute are, both those of
    /// the last trade.
    pub open spec fn steady(self) -> bool {
        match (self.hour, self.minute, self.last_seen_ms) {
            (None, None, None) => true,
            (Some(hour), Some(bar), Some(seen)) => {
                &&& seen < MSEC_PER_DAY
                &&& self.date_key == Some(hour.date_key)
                &&& hour.date_key == bar.date_key
                &&& hour.start_ms == hour_of(seen)
                &&& bar.start_ms == minute_of(seen)
                &&& hour.last_ts_ms == Some(seen)
                &&& hour.last_price == Some(bar.close)
                &&& hour.area <= u64::MAX * (seen - hour.start_ms)
                &&& bar.volume <= hour.vol
            },
            _ => false,
        }
    }

    /// The trade falls in the current hour.
    pub open spec fn continues_hour(self, tick: Tick) -> bool {
        self.hour matches Some(hour) && hour.date_key == tick.date_key && hour.start_ms == hour_of(
            tick.ts_ms,
        )
    }

    /// What the trades of the current hour add up to stays within the machine's
    /// numbers with one more trade.
    pub open spec fn sums_fit(self, tick: Tick) -> bool {
        self.continues_hour(tick) ==> {
            &&& self.hour->0.pv + tick.price as nat * tick.volume as nat <= u128::MAX
            &&& self.hour->0.vol + tick.volume <= u64::MAX
        }
    }
}

/// The area of an hour up to the moment `seen` stays bounded when a price is
/// held until `until`.
proof fn lemma_area_bound(area: nat, price: u64, start: int, seen: int, until: int)
    requires
        area <= u64::MAX * (seen - start),
        start <= seen <= until,
    ensures
        area + price as nat * (until - seen) as nat <= u64::MAX * (until - start),
{
    assert(price * (until - seen) <= u64::MAX * (until - seen)) by (nonlinear_arith)
        requires
            price <= u64::MAX,
            seen <= until,
    ;
    assert(u64::MAX * (until - start) == u64::MAX * (until - seen) + u64::MAX * (seen - start))
        by (nonlinear_arith);
}

/// A steady state can be put out.
pub proof fn lemma_steady_can_close(state: SymbolState)
    requires
        state.steady(),
    ensures
        state.can_close(),
{
    if let Some(hour) = state.hour {
        let seen = state.last_seen_ms->0;
        lemma_area_bound(
            hour.area,
            hour.last_price->0,
            hour.start_ms as int,
            seen as int,
            hour.end_ms(),
        );
        assert(u64::MAX * MSEC_PER_HOUR <= u128::MAX);
    }
}

/// A trade in order leads from a steady state to a steady state.
pub proof fn lemma_record_steady(state: SymbolState, tick: Tick)
    requires
        state.steady(),
        state.order_fault(tick) is None,
        tick.ts_ms < MSEC_PER_DAY,
    ensures
        state.record(tick).state.steady(),
{
    if let Some(hour) = state.hour {
        let seen = state.last_seen_ms->0;
        if state.date_key == Some(tick.date_key) {
            lemma_hours_ascend(seen, tick.ts_ms);
            lemma_minutes_ascend(seen, tick.ts_ms);
            if hour.is_before(tick) {
                lemma_area_bound(
                    0,
                    hour.last_price->0,
                    hour_of(tick.ts_ms) as int,
                    hour_of(tick.ts_ms) as int,
                    tick.ts_ms as int,
                );
            } else {
                assert(hour.start_ms == hour_of(tick.ts_ms));
                lemma_area_bound(
                    hour.area,
                    hour.last_price->0,
                    hour.start_ms as int,
                    seen as int,
                    tick.ts_ms as int,
                );
            }
        }
    }
}

/// For a trade in order, recording stays within the machine's numbers exactly
/// where the sums do.
pub proof fn lemma_can_record(state: SymbolState, tick: Tick)
    requires
        state.steady(),
        state.order_fault(tick) is None,
        tick.ts_ms < MSEC_PER_DAY,
    ensures
        state.can_record(tick) <==> state.sums_fit(tick),
{
    lemma_steady_can_close(state);
    lemma_record_steady(state, tick);
    lemma_product_fits(tick.price as nat, tick.volume as nat);
    let after = state.record(tick).state;
    assert(after.hour->0.area <= u64::MAX * MSEC_PER_HOUR) by {
        assert(u64::MAX * (tick.ts_ms - hour_of(tick.ts_ms)) <= u64::MAX * MSEC_PER_HOUR)
            by (nonlinear_arith)
            requires
                tick.ts_ms - hour_of(tick.ts_ms) <= MSEC_PER_HOUR,
        ;
    }
    assert(u64::MAX * MSEC_PER_HOUR <= u128::MAX);
}

impl SymbolAgg {
    /// Whether the sums stay within the machine's numbers with one more trade.
    pub fn has_room(&self, tick: &ParsedTick<'_>) -> (room: bool)
        requires
            self@.steady(),
            self@.order_fault(tick@) is None,
            tick.ts_ms < MSEC_PER_DAY,
        ensures
            room == self@.can_record(tick@),
    {
        proof {
            lemma_can_record(self@, tick@);
            lemma_product_fits(tick.price as nat, tick.volume as nat);
        }
        match self.cur_hour {
            Some(hour) => {
                if hour.date_key == tick.date_key && hour.hour_start_ms == HourAgg::floor_ms(
                    tick.ts_ms,
                ) {
                    let pv: u128 = (tick.price as u128) * (tick.volume as u128);
                    pv <= u128::MAX - hour.pv_sum && tick.volume <= u64::MAX - hour.vol_sum
                } else {
                    true
                }
            },
            None => true,
        }
    }
}

} // verus!
