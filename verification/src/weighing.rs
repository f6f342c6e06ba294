//! Sums over series of trades: volume, traded value, and the area under the
//! price that is in force.
use vstd::prelude::*;

use crate::parse::Tick;

verus! {

/// Sum of volumes.
pub open spec fn volume_sum(ticks: Seq<Tick>) -> nat
    decreases ticks.len(),
{
    if ticks.len() == 0 {
        0
    } else {
        volume_sum(ticks.drop_last()) + ticks.last().volume as nat
    }
}

/// Sum of price times volume.
pub open spec fn value_sum(ticks: Seq<Tick>) -> nat
    decreases ticks.len(),
{
    if ticks.len() == 0 {
        0
    } else {
        value_sum(ticks.drop_last()) + ticks.last().price as nat * ticks.last().volume as nat
    }
}

/// The price in force at the moment `ms` of a day: that of the last trade at
/// or before it, and zero before the first.
pub open spec fn price_at(ticks: Seq<Tick>, ms: int) -> nat
    decreases ticks.len(),
{
    if ticks.len() == 0 {
        0
    } else if ticks.last().ts_ms <= ms {
        ticks.last().price as nat
    } else {
        price_at(ticks.drop_last(), ms)
    }
}

/// The area under the price in force, millisecond by millisecond, from `from`
/// to before `to`.
pub open spec fn area_under(ticks: Seq<Tick>, from: int, to: int) -> nat
    decreases to - from,
{
    if to <= from {
        0
    } else {
        area_under(ticks, from, to - 1) + price_at(ticks, to - 1)
    }
}

/// An area is the sum of its parts.
pub proof fn lemma_area_parts(ticks: Seq<Tick>, from: int, mid: int, to: int)
    requires
        from <= mid <= to,
    ensures
        area_under(ticks, from, to) == area_under(ticks, from, mid) + area_under(ticks, mid, to),
    decreases to - mid,
{
    if mid < to {
        lemma_area_parts(ticks, from, mid, to - 1);
    }
}

/// Under one price the area is a rectangle.
pub proof fn lemma_area_flat(ticks: Seq<Tick>, from: int, to: int, price: nat)
    requires
        from <= to,
        forall|ms: int| from <= ms < to ==> #[trigger] price_at(ticks, ms) == price,
    ensures
        area_under(ticks, from, to) == price * (to - from) as nat,
    decreases to - from,
{
    if from < to {
        lemma_area_flat(ticks, from, to - 1, price);
        assert(price * (to - from) as nat == price * (to - 1 - from) as nat + price)
            by (nonlinear_arith)
            requires
                from < to,
        ;
        assert(price_at(ticks, to - 1) == price);
    } else {
        assert(price * 0 == 0) by (nonlinear_arith);
    }
}

/// Where the prices in force agree, so do the areas.
pub proof fn lemma_area_same(a: Seq<Tick>, b: Seq<Tick>, from: int, to: int)
    requires
        forall|ms: int| from <= ms < to ==> #[trigger] price_at(a, ms) == price_at(b, ms),
    ensures
        area_under(a, from, to) == area_under(b, from, to),
    decreases to - from,
{
    if from < to {
        lemma_area_same(a, b, from, to - 1);
        assert(price_at(a, to - 1) == price_at(b, to - 1));
    }
}

/// A trade changes no price in force before it.
pub proof fn lemma_area_push(ticks: Seq<Tick>, tick: Tick, from: int, to: int)
    requires
        to <= tick.ts_ms,
    ensures
        area_under(ticks.push(tick), from, to) == area_under(ticks, from, to),
{
    assert(ticks.push(tick).drop_last() =~= ticks);
    lemma_area_same(ticks.push(tick), ticks, from, to);
}

/// After the last trade its price stays in force.
pub proof fn lemma_area_after_last(ticks: Seq<Tick>, from: int, to: int)
    requires
        ticks.len() > 0,
        ticks.last().ts_ms <= from <= to,
    ensures
        area_under(ticks, from, to) == ticks.last().price as nat * (to - from) as nat,
{
    lemma_area_flat(ticks, from, to, ticks.last().price as nat);
}

/// The time-weighted average price lies between the lowest and the highest
/// price, from the first trade on: so does the area, times the duration.
pub proof fn law_area_between(ticks: Seq<Tick>, low: nat, high: nat, from: int, to: int)
    requires
        ticks.len() > 0,
        ticks.first().ts_ms <= from <= to,
        forall|i: int| 0 <= i < ticks.len() ==> low <= (#[trigger] ticks[i]).price <= high,
    ensures
        low * (to - from) <= area_under(ticks, from, to) <= high * (to - from),
    decreases to - from,
{
    if from < to {
        law_area_between(ticks, low, high, from, to - 1);
        lemma_price_between(ticks, low, high, to - 1);
        assert(low * (to - from) == low * (to - 1 - from) + low) by (nonlinear_arith);
        assert(high * (to - from) == high * (to - 1 - from) + high) by (nonlinear_arith);
    } else {
        assert(low * (to - from) == 0) by (nonlinear_arith)
            requires
                to == from,
        ;
        assert(high * (to - from) == 0) by (nonlinear_arith)
            requires
                to == from,
        ;
    }
}

proof fn lemma_price_between(ticks: Seq<Tick>, low: nat, high: nat, ms: int)
    requires
        ticks.len() > 0,
        ticks.first().ts_ms <= ms,
        forall|i: int| 0 <= i < ticks.len() ==> low <= (#[trigger] ticks[i]).price <= high,
    ensures
        low <= price_at(ticks, ms) <= high,
    decreases ticks.len(),
{
    assert(ticks[ticks.len() - 1] == ticks.last());
    if ticks.last().ts_ms > ms {
        let init = ticks.drop_last();
        assert(forall|i: int| 0 <= i < init.len() ==> init[i] == ticks[i]);
        assert(init.first() == ticks.first());
        lemma_price_between(init, low, high, ms);
    }
}

/// The volume-weighted average price lies between the lowest and the highest
/// price: so does the traded value, times the volume.
pub proof fn law_value_between(ticks: Seq<Tick>, low: nat, high: nat)
    requires
        forall|i: int| 0 <= i < ticks.len() ==> low <= (#[trigger] ticks[i]).price <= high,
    ensures
        low * volume_sum(ticks) <= value_sum(ticks) <= high * volume_sum(ticks),
    decreases ticks.len(),
{
    if ticks.len() > 0 {
        let init = ticks.drop_last();
        let last = ticks.last();
        assert(forall|i: int| 0 <= i < init.len() ==> init[i] == ticks[i]);
        law_value_between(init, low, high);
        assert(ticks[ticks.len() - 1] == last);
        let v = last.volume as nat;
        let p = last.price as nat;
        let sum = volume_sum(init);
        assert(low * (sum + v) == low * sum + low * v) by (nonlinear_arith);
        assert(high * (sum + v) == high * sum + high * v) by (nonlinear_arith);
        assert(low * v <= p * v <= high * v) by (nonlinear_arith)
            requires
                low <= p <= high,
        ;
    } else {
        assert(low * 0 == 0 && high * 0 == 0) by (nonlinear_arith);
    }
}

} // verus!
