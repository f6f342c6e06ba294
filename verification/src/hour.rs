//! Hourly sums: traded value and volume, whose quotient is the volume-weighted
//! average price, and the area under the price, whose quotient by the length
//! of an hour is the time-weighted one.
use vstd::prelude::*;

use crate::clock::{date_text, time_text, DateKey, Hms, MSEC_PER_HOUR};
use crate::minute::{lemma_minutes_ascend, minute_of};
use crate::parse::{ParsedTick, Tick};

verus! {

/// The sums of an hour as the models see them.
pub struct HourSums {
    pub date_key: u32,
    pub start_ms: u32,
    /// Sum of price times volume.
    pub pv: nat,
    /// Sum of volumes.
    pub vol: nat,
    /// Price times milliseconds, summed up to the moment `last_ts_ms`.
    pub area: nat,
    pub last_price: Option<u64>,
    pub last_ts_ms: Option<u32>,
}

/// The start of the hour that holds the moment `ms`.
pub open spec fn hour_of(ms: u32) -> u32 {
    (ms - ms % MSEC_PER_HOUR) as u32
}

/// Of two moments, the later one is in no earlier hour; and a later hour is a
/// later minute too.
pub proof fn lemma_hours_ascend(a: u32, b: u32)
    requires
        a <= b,
    ensures
        hour_of(a) <= hour_of(b),
        hour_of(a) < hour_of(b) ==> minute_of(a) < minute_of(b),
{
    assert(hour_of(a) == (a / MSEC_PER_HOUR) * MSEC_PER_HOUR);
    assert(hour_of(b) == (b / MSEC_PER_HOUR) * MSEC_PER_HOUR);
    assert(a / MSEC_PER_HOUR <= b / MSEC_PER_HOUR);
    if hour_of(a) < hour_of(b) {
        assert(a < hour_of(b) <= b);
        assert(minute_of(a) <= a);
        assert(minute_of(hour_of(b)) == hour_of(b));
        lemma_minutes_ascend(hour_of(b), b);
    }
}

impl HourSums {
    /// An hour without trades, in which the price `carry` still holds.
    pub open spec fn opened(date_key: u32, start_ms: u32, carry: Option<u64>) -> HourSums {
        HourSums {
            date_key,
            start_ms,
            pv: 0,
            vol: 0,
            area: 0,
            last_price: carry,
            last_ts_ms: if carry is Some {
                Some(start_ms)
            } else {
                None
            },
        }
    }

    /// The end of the hour.
    pub open spec fn end_ms(self) -> int {
        self.start_ms + MSEC_PER_HOUR
    }

    /// The sums when the last price has held until the moment `until`. A
    /// moment that is already past changes nothing.
    pub open spec fn held_until(self, until: int) -> HourSums {
        match (self.last_price, self.last_ts_ms) {
            (Some(price), Some(ts)) if until > ts => HourSums {
                area: self.area + price as nat * (until - ts) as nat,
                last_ts_ms: Some(until as u32),
                ..self
            },
            _ => self,
        }
    }

    /// The sums with one more trade.
    pub open spec fn with(self, tick: Tick) -> HourSums {
        HourSums {
            pv: self.pv + tick.price as nat * tick.volume as nat,
            vol: self.vol + tick.volume as nat,
            last_price: Some(tick.price),
            last_ts_ms: Some(tick.ts_ms),
            ..self.held_until(tick.ts_ms as int)
        }
    }

    /// The sums at the end of the hour.
    pub open spec fn closed(self) -> HourSums {
        self.held_until(self.end_ms())
    }

    /// The end of the hour and its final area are within the machine's numbers.
    pub open spec fn can_close(self) -> bool {
        &&& self.end_ms() <= u32::MAX
        &&& self.closed().area <= u128::MAX
    }

    /// The sums with one more trade are within the machine's numbers.
    pub open spec fn can_take(self, tick: Tick) -> bool {
        &&& self.with(tick).pv <= u128::MAX
        &&& self.with(tick).vol <= u64::MAX
        &&& self.with(tick).area <= u128::MAX
    }

    /// Whether the hour of this trade comes later.
    pub open spec fn is_before(self, tick: Tick) -> bool {
        self.date_key < tick.date_key || (self.date_key == tick.date_key && self.start_ms
            < hour_of(tick.ts_ms))
    }
}

/// The sums of an hour.
#[derive(Debug, Clone, Copy)]
pub struct HourAgg {
    pub date_key: u32,
    pub hour_start_ms: u32,
    pub pv_sum: u128,
    pub vol_sum: u64,
    pub twap_num: u128,
    pub last_price: Option<u64>,
    pub last_ts_ms: Option<u32>,
}

impl View for HourAgg {
    type V = HourSums;

    open spec fn view(&self) -> HourSums {
        HourSums {
            date_key: self.date_key,
            start_ms: self.hour_start_ms,
            pv: self.pv_sum as nat,
            vol: self.vol_sum as nat,
            area: self.twap_num as nat,
            last_price: self.last_price,
            last_ts_ms: self.last_ts_ms,
        }
    }
}

impl HourAgg {
    /// The start of the hour that holds the moment `ms`.
    pub fn floor_ms(ms: u32) -> (start: u32)
        ensures
            start == hour_of(ms),
    {
        (ms / MSEC_PER_HOUR) * MSEC_PER_HOUR
    }

    /// An hour without trades and without a price.
    pub fn new(date_key: u32, hour_start_ms: u32) -> (hour: HourAgg)
        ensures
            hour@ == HourSums::opened(date_key, hour_start_ms, None),
    {
        HourAgg {
            date_key,
            hour_start_ms,
            pv_sum: 0,
            vol_sum: 0,
            twap_num: 0,
            last_price: None,
            last_ts_ms: None,
        }
    }

    /// An hour without trades, in which the last price of an earlier one still holds.
    pub fn with_carry(date_key: u32, hour_start_ms: u32, carry_price: Option<u64>) -> (hour:
        HourAgg)
        ensures
            hour@ == HourSums::opened(date_key, hour_start_ms, carry_price),
    {
        let last_ts_ms: Option<u32> = if carry_price.is_some() {
            Some(hour_start_ms)
        } else {
            None
        };
        HourAgg {
            date_key,
            hour_start_ms,
            pv_sum: 0,
            vol_sum: 0,
            twap_num: 0,
            last_price: carry_price,
            last_ts_ms,
        }
    }

    /// The end of the hour.
    pub fn end_ms(&self) -> (end: u32)
        requires
            self@.end_ms() <= u32::MAX,
        ensures
            end == self@.end_ms(),
    {
        self.hour_start_ms + MSEC_PER_HOUR
    }

    /// Adds the area under the last price up to the moment `until_ts_ms`.
    pub fn add_twap(&mut self, until_ts_ms: u32)
        requires
            old(self)@.held_until(until_ts_ms as int).area <= u128::MAX,
        ensures
            final(self)@ == old(self)@.held_until(until_ts_ms as int),
    {
        let (last_price, last_ts_ms): (u64, u32) = match (self.last_price, self.last_ts_ms) {
            (Some(price), Some(ts)) => (price, ts),
            _ => return,
        };
        if until_ts_ms <= last_ts_ms {
            return;
        }
        let duration_ms: u32 = until_ts_ms - last_ts_ms;
        proof {
            lemma_product_fits(last_price as nat, duration_ms as nat);
        }
        let area: u128 = (last_price as u128) * (duration_ms as u128);
        self.twap_num = self.twap_num + area;
        self.last_ts_ms = Some(until_ts_ms);
    }

    /// Takes one more trade into the sums.
    pub fn record_parsed_tick(&mut self, tick: &ParsedTick<'_>)
        requires
            old(self)@.can_take(tick@),
        ensures
            final(self)@ == old(self)@.with(tick@),
    {
        self.add_twap(tick.ts_ms);
        proof {
            lemma_product_fits(tick.price as nat, tick.volume as nat);
        }
        self.pv_sum = self.pv_sum + (tick.price as u128) * (tick.volume as u128);
        self.vol_sum = self.vol_sum + tick.volume;
        self.last_price = Some(tick.price);
        self.last_ts_ms = Some(tick.ts_ms);
    }

    /// The hour together with the symbol it is shown under.
    pub fn as_output<'a>(&'a self, symbol: &'a str) -> (output: HourOutput<'a>)
        ensures
            output.symbol == symbol,
            output.hour == self,
    {
        HourOutput { symbol, hour: self }
    }
}

/// Two 64-bit numbers have a 128-bit product.
pub proof fn lemma_product_fits(a: nat, b: nat)
    requires
        a <= u64::MAX,
        b <= u64::MAX,
    ensures
        a * b <= u128::MAX,
{
    assert(a * b <= 0xffff_ffff_ffff_ffff * 0xffff_ffff_ffff_ffff) by (nonlinear_arith)
        requires
            a <= 0xffff_ffff_ffff_ffff,
            b <= 0xffff_ffff_ffff_ffff,
    ;
}

/// The text of an hour line up to its last two columns, the average prices,
/// which are left to be filled in.
pub open spec fn hour_text(symbol: Seq<char>, hour: HourSums) -> Seq<char> {
    "HOUR,"@ + date_text(hour.date_key as nat) + seq![','] + symbol + seq![','] + time_text(
        hour.start_ms as nat,
    ) + seq![','] + time_text(hour.end_ms() as nat) + seq![',']
}

/// An hour ready to be shown.
#[derive(Debug, Clone, Copy)]
pub struct HourOutput<'a> {
    pub symbol: &'a str,
    pub hour: &'a HourAgg,
}

impl<'a> HourOutput<'a> {
    /// The line up to its last two columns.
    pub fn text(&self) -> (text: String)
        requires
            self.hour@.end_ms() <= u32::MAX,
        ensures
            text@ == hour_text(self.symbol@, self.hour@),
    {
        let mut text = String::new();
        text.append("HOUR,");
        DateKey(self.hour.date_key).push_text(&mut text);
        text.push(',');
        text.append(self.symbol);
        text.push(',');
        Hms(self.hour.hour_start_ms).push_text(&mut text);
        text.push(',');
        Hms(self.hour.end_ms()).push_text(&mut text);
        text.push(',');
        assert(text@ =~= hour_text(self.symbol@, self.hour@));
        text
    }
}

/// The hour of a moment starts on a full hour, at the moment or before it, and
/// ends sixty minutes later, after it.
pub proof fn law_hour_holds_its_moments(ms: u32)
    ensures
        hour_of(ms) as int % 3_600_000 == 0,
        hour_of(ms) <= ms < hour_of(ms) + 3_600_000,
{
}

/// Two moments have the same hour if and only if no full hour lies between them.
pub proof fn law_same_hour(a: u32, b: u32)
    ensures
        hour_of(a) == hour_of(b) <==> a as int / 3_600_000 == b as int / 3_600_000,
        hour_of(a) < hour_of(b) <==> (a as int / 3_600_000) < b as int / 3_600_000,
{
    law_hour_holds_its_moments(a);
    law_hour_holds_its_moments(b);
}

/// An hour is as long as sixty minutes.
pub proof fn law_hour_ends(hour: HourSums)
    ensures
        hour.end_ms() - hour.start_ms == 60 * 60 * 1000,
{
}

/// The sums of an hour are seen as what its fields hold.
pub proof fn law_hours_are_seen_as_they_are(hour: HourAgg)
    ensures
        hour@.date_key == hour.date_key,
        hour@.start_ms == hour.hour_start_ms,
        hour@.pv == hour.pv_sum,
        hour@.vol == hour.vol_sum,
        hour@.area == hour.twap_num,
        hour@.last_price == hour.last_price,
        hour@.last_ts_ms == hour.last_ts_ms,
{
}

/// An hour opens without sums, and a price that carries over is in force from
/// its start on.
pub proof fn law_hour_opens_empty(date_key: u32, start_ms: u32, carry: Option<u64>)
    ensures
        ({
            let hour = HourSums::opened(date_key, start_ms, carry);
            &&& hour.date_key == date_key && hour.start_ms == start_ms
            &&& hour.pv == 0 && hour.vol == 0 && hour.area == 0
            &&& hour.last_price == carry
            &&& carry is None ==> hour.last_ts_ms is None
            &&& carry is Some ==> hour.last_ts_ms == Some(start_ms)
        }),
{
}

/// A price that is held adds, for every millisecond that it is held longer, itself
/// to the area, and changes nothing else.
pub proof fn law_held_price_adds_up(hour: HourSums, price: u64, since: u32, until: u32)
    requires
        hour.last_price == Some(price),
        hour.last_ts_ms == Some(since),
        since <= until < u32::MAX,
    ensures
        hour.held_until(since as int) == hour,
        hour.held_until(until + 1).area == hour.held_until(until as int).area + price,
        ({
            let held = hour.held_until(until as int);
            &&& held.pv == hour.pv && held.vol == hour.vol
            &&& held.date_key == hour.date_key && held.start_ms == hour.start_ms
            &&& held.last_price == hour.last_price && held.last_ts_ms == Some(until)
        }),
{
    assert(price as nat * (until + 1 - since) as nat == price as nat * (until - since) as nat
        + price) by (nonlinear_arith)
        requires
            since <= until,
    ;
    assert(price as nat * 0 == 0) by (nonlinear_arith);
}

/// A trade adds its volume, and as much as its price for each unit of it, to the
/// sums, and is then the one in force.
pub proof fn law_trade_adds_to_hour(hour: HourSums, tick: Tick)
    ensures
        ({
            let next = hour.with(tick);
            &&& next.vol - hour.vol == tick.volume
            &&& next.pv - hour.pv == tick.price * tick.volume
            &&& next.area == hour.held_until(tick.ts_ms as int).area
            &&& next.date_key == hour.date_key && next.start_ms == hour.start_ms
            &&& next.last_price == Some(tick.price) && next.last_ts_ms == Some(tick.ts_ms)
        }),
{
}

} // verus!
