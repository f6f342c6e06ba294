//! Minute bars: open, high, low and close price, and the volume.
use vstd::prelude::*;

use crate::clock::{date_text, time_text, DateKey, Hms, MSEC_PER_MIN};
use crate::decimal::{decimal, push_decimal};
use crate::parse::{ParsedTick, Tick};
use crate::rsi::RsiStep;

verus! {

/// A minute bar as the models see it.
pub struct MinuteBar {
    pub date_key: u32,
    pub start_ms: u32,
    pub open: u64,
    pub high: u64,
    pub low: u64,
    pub close: u64,
    pub volume: nat,
}

/// The start of the minute that holds the moment `ms`.
pub open spec fn minute_of(ms: u32) -> u32 {
    (ms - ms % MSEC_PER_MIN) as u32
}

/// Of two moments, the later one is in no earlier minute.
pub proof fn lemma_minutes_ascend(a: u32, b: u32)
    requires
        a <= b,
    ensures
        minute_of(a) <= minute_of(b),
{
    assert(minute_of(a) == (a / MSEC_PER_MIN) * MSEC_PER_MIN);
    assert(minute_of(b) == (b / MSEC_PER_MIN) * MSEC_PER_MIN);
    assert(a / MSEC_PER_MIN <= b / MSEC_PER_MIN);
}

impl MinuteBar {
    /// The bar of a single trade.
    pub open spec fn of(tick: Tick) -> MinuteBar {
        MinuteBar {
            date_key: tick.date_key,
            start_ms: minute_of(tick.ts_ms),
            open: tick.price,
            high: tick.price,
            low: tick.price,
            close: tick.price,
            volume: tick.volume as nat,
        }
    }

    /// The bar with one more trade.
    pub open spec fn with(self, tick: Tick) -> MinuteBar {
        MinuteBar {
            high: if tick.price > self.high {
                tick.price
            } else {
                self.high
            },
            low: if tick.price < self.low {
                tick.price
            } else {
                self.low
            },
            close: tick.price,
            volume: self.volume + tick.volume as nat,
            ..self
        }
    }

    /// Whether the minute of this trade comes later.
    pub open spec fn is_before(self, tick: Tick) -> bool {
        self.date_key < tick.date_key || (self.date_key == tick.date_key && self.start_ms
            < minute_of(tick.ts_ms))
    }

    /// Whether the trade falls in the minute of this bar.
    pub open spec fn covers(self, tick: Tick) -> bool {
        self.date_key == tick.date_key && self.start_ms == minute_of(tick.ts_ms)
    }
}

/// A minute bar in the making.
#[derive(Debug, Clone, Copy)]
pub struct MinuteAgg {
    pub date_key: u32,
    pub minute_start_ms: u32,
    pub open: u64,
    pub high: u64,
    pub low: u64,
    pub close: u64,
    pub volume: u64,
}

impl View for MinuteAgg {
    type V = MinuteBar;

    open spec fn view(&self) -> MinuteBar {
        MinuteBar {
            date_key: self.date_key,
            start_ms: self.minute_start_ms,
            open: self.open,
            high: self.high,
            low: self.low,
            close: self.close,
            volume: self.volume as nat,
        }
    }
}

impl MinuteAgg {
    /// The start of the minute that holds the moment `ms`.
    pub fn floor_ms(ms: u32) -> (start: u32)
        ensures
            start == minute_of(ms),
    {
        (ms / MSEC_PER_MIN) * MSEC_PER_MIN
    }

    /// A bar whose first trade has this price and volume.
    pub fn new(date_key: u32, minute_start_ms: u32, price: u64, volume: u64) -> (bar: MinuteAgg)
        ensures
            bar@ == (MinuteBar {
                date_key,
                start_ms: minute_start_ms,
                open: price,
                high: price,
                low: price,
                close: price,
                volume: volume as nat,
            }),
    {
        MinuteAgg {
            date_key,
            minute_start_ms,
            open: price,
            high: price,
            low: price,
            close: price,
            volume,
        }
    }

    /// Takes one more trade into the bar.
    pub fn record_parsed_tick(&mut self, tick: &ParsedTick<'_>)
        requires
            old(self).volume + tick.volume <= u64::MAX,
        ensures
            final(self)@ == old(self)@.with(tick@),
    {
        if tick.price > self.high {
            self.high = tick.price;
        }
        if tick.price < self.low {
            self.low = tick.price;
        }
        self.close = tick.price;
        self.volume = self.volume + tick.volume;
    }

    /// The finished bar, with what its close means for the strength index.
    pub fn finalize(self, rsi14: RsiStep) -> (bar: MinuteFinal)
        ensures
            bar@ == self@,
            bar.rsi14 == rsi14,
    {
        MinuteFinal {
            date_key: self.date_key,
            minute_start_ms: self.minute_start_ms,
            open: self.open,
            high: self.high,
            low: self.low,
            close: self.close,
            volume: self.volume,
            rsi14,
        }
    }
}

/// A finished minute bar.
#[derive(Debug, Clone, Copy)]
pub struct MinuteFinal {
    pub date_key: u32,
    pub minute_start_ms: u32,
    pub open: u64,
    pub high: u64,
    pub low: u64,
    pub close: u64,
    pub volume: u64,
    pub rsi14: RsiStep,
}

impl View for MinuteFinal {
    type V = MinuteBar;

    open spec fn view(&self) -> MinuteBar {
        MinuteBar {
            date_key: self.date_key,
            start_ms: self.minute_start_ms,
            open: self.open,
            high: self.high,
            low: self.low,
            close: self.close,
            volume: self.volume as nat,
        }
    }
}

impl MinuteFinal {
    /// The bar together with the symbol it is shown under.
    pub fn as_output<'a>(&'a self, symbol: &'a str) -> (output: MinuteOutput<'a>)
        ensures
            output.symbol == symbol,
            output.bar == self,
    {
        MinuteOutput { symbol, bar: self }
    }
}

/// The text of a minute line up to its last column, the strength index, which
/// is left to be filled in.
pub open spec fn minute_text(symbol: Seq<char>, bar: MinuteBar) -> Seq<char> {
    "MINUTE,"@ + date_text(bar.date_key as nat) + seq![','] + symbol + seq![','] + time_text(
        bar.start_ms as nat,
    ) + seq![','] + time_text((bar.start_ms + MSEC_PER_MIN) as nat) + seq![','] + decimal(
        bar.open as nat,
    ) + seq![','] + decimal(bar.high as nat) + seq![','] + decimal(bar.low as nat) + seq![',']
        + decimal(bar.close as nat) + seq![','] + decimal(bar.volume) + seq![',']
}

/// A minute bar ready to be shown.
#[derive(Debug, Clone, Copy)]
pub struct MinuteOutput<'a> {
    pub symbol: &'a str,
    pub bar: &'a MinuteFinal,
}

impl<'a> MinuteOutput<'a> {
    /// The line up to its last column.
    pub fn text(&self) -> (text: String)
        requires
            self.bar.minute_start_ms + MSEC_PER_MIN <= u32::MAX,
        ensures
            text@ == minute_text(self.symbol@, self.bar@),
    {
        let bar: &MinuteFinal = self.bar;
        let mut text = String::new();
        text.append("MINUTE,");
        DateKey(bar.date_key).push_text(&mut text);
        text.push(',');
        text.append(self.symbol);
        text.push(',');
        Hms(bar.minute_start_ms).push_text(&mut text);
        text.push(',');
        Hms(bar.minute_start_ms + MSEC_PER_MIN).push_text(&mut text);
        text.push(',');
        push_decimal(&mut text, bar.open as u128);
        text.push(',');
        push_decimal(&mut text, bar.high as u128);
        text.push(',');
        push_decimal(&mut text, bar.low as u128);
        text.push(',');
        push_decimal(&mut text, bar.close as u128);
        text.push(',');
        push_decimal(&mut text, bar.volume as u128);
        text.push(',');
        assert(text@ =~= minute_text(self.symbol@, self.bar@));
        text
    }
}

/// The minute of a moment starts on a full minute, at the moment or before it,
/// and ends sixty seconds later, after it.
pub proof fn law_minute_holds_its_moments(ms: u32)
    ensures
        minute_of(ms) as int % 60_000 == 0,
        minute_of(ms) <= ms < minute_of(ms) + 60_000,
{
}

/// Two moments have the same minute if and only if no full minute lies between
/// them.
pub proof fn law_same_minute(a: u32, b: u32)
    ensures
        minute_of(a) == minute_of(b) <==> a as int / 60_000 == b as int / 60_000,
        minute_of(a) < minute_of(b) <==> (a as int / 60_000) < b as int / 60_000,
{
    law_minute_holds_its_moments(a);
    law_minute_holds_its_moments(b);
}

/// A bar in the making is seen as what its fields hold, and so is a finished
/// one.
pub proof fn law_bars_are_seen_as_they_are(agg: MinuteAgg, bar: MinuteFinal)
    ensures
        agg@.date_key == agg.date_key && bar@.date_key == bar.date_key,
        agg@.start_ms == agg.minute_start_ms && bar@.start_ms == bar.minute_start_ms,
        agg@.open == agg.open && bar@.open == bar.open,
        agg@.high == agg.high && bar@.high == bar.high,
        agg@.low == agg.low && bar@.low == bar.low,
        agg@.close == agg.close && bar@.close == bar.close,
        agg@.volume == agg.volume && bar@.volume == bar.volume,
{
}

/// A trade leaves the open price, the date and the minute of a bar, closes it
/// with its own price, adds its volume, and widens the span of prices just as
/// far as to hold its own.
pub proof fn law_trade_widens_bar(bar: MinuteBar, tick: Tick)
    ensures
        ({
            let next = bar.with(tick);
            &&& next.date_key == bar.date_key && next.start_ms == bar.start_ms
            &&& next.open == bar.open && next.close == tick.price
            &&& next.volume - bar.volume == tick.volume
            &&& next.high >= bar.high && next.high >= tick.price
            &&& next.high == bar.high || next.high == tick.price
            &&& next.low <= bar.low && next.low <= tick.price
            &&& next.low == bar.low || next.low == tick.price
        }),
{
}

} // verus!
