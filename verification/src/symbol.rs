//! The running state of one symbol, and what each trade does to it.
use vstd::prelude::*;

use crate::error::{AppError, Fault};
use crate::hour::{hour_of, HourAgg, HourSums};
use crate::minute::{MinuteAgg, MinuteBar, MinuteFinal};
use crate::parse::{ParsedTick, Tick};
use crate::record::{lemma_lines_push, lines, Line, Record};
use crate::rsi::{RsiState, RsiStep};

verus! {

/// The state of a symbol as the models see it.
pub struct SymbolState {
    pub date_key: Option<u32>,
    pub hour: Option<HourSums>,
    pub minute: Option<MinuteBar>,
    pub last_seen_ms: Option<u32>,
    pub rsi: RsiState,
}

/// A next state, and what is put out on the way to it.
pub struct Move {
    pub state: SymbolState,
    pub lines: Seq<Line>,
}

impl SymbolState {
    /// Before the first trade.
    pub open spec fn fresh() -> SymbolState {
        SymbolState {
            date_key: None,
            hour: None,
            minute: None,
            last_seen_ms: None,
            rsi: RsiState::fresh(),
        }
    }

    /// Stays as it is and puts out nothing.
    pub open spec fn stay(self) -> Move {
        Move { state: self, lines: Seq::empty() }
    }

    /// What is wrong with the order in which the trade comes, if anything.
    pub open spec fn order_fault(self, tick: Tick) -> Option<Fault> {
        match self.date_key {
            Some(date_key) if tick.date_key < date_key => Some(
                Fault::OutOfOrderDate {
                    symbol: tick.symbol,
                    got: tick.date_key,
                    current: date_key,
                },
            ),
            Some(date_key) if tick.date_key == date_key => match self.last_seen_ms {
                Some(last_seen_ms) if tick.ts_ms < last_seen_ms => Some(
                    Fault::OutOfOrderTime {
                        symbol: tick.symbol,
                        date_key: tick.date_key,
                        got_ms: tick.ts_ms,
                        current_ms: last_seen_ms,
                    },
                ),
                _ => None,
            },
            _ => None,
        }
    }

    /// Puts out the current minute, if there is one.
    pub open spec fn close_minute(self, symbol: Seq<char>) -> Move {
        match self.minute {
            None => self.stay(),
            Some(bar) => Move {
                state: SymbolState { minute: None, rsi: self.rsi.after(bar.close), ..self },
                lines: seq![Line::Minute { symbol, bar, rsi14: self.rsi.step(bar.close) }],
            },
        }
    }

    /// Puts out the current hour, if there is one, as it stands at its end.
    pub open spec fn close_hour(self, symbol: Seq<char>) -> Move {
        match self.hour {
            None => self.stay(),
            Some(hour) => Move {
                state: SymbolState { hour: None, ..self },
                lines: seq![Line::Hour { symbol, hour: hour.closed() }],
            },
        }
    }

    /// Puts out the current minute and the current hour. The date and the
    /// strength index stay.
    pub open spec fn close_all(self, symbol: Seq<char>) -> Move {
        let minute = self.close_minute(symbol);
        let hour = minute.state.close_hour(symbol);
        Move {
            state: SymbolState { last_seen_ms: None, ..hour.state },
            lines: minute.lines + hour.lines,
        }
    }

    /// Turns to the date of the trade. Another date ends what is current.
    pub open spec fn to_date(self, tick: Tick) -> Move {
        let left = if self.date_key is Some && self.date_key != Some(tick.date_key) {
            self.close_all(tick.symbol)
        } else {
            self.stay()
        };
        Move { state: SymbolState { date_key: Some(tick.date_key), ..left.state }, ..left }
    }

    /// Turns to the hour of the trade. An earlier hour is put out, and its
    /// last price carries over.
    pub open spec fn to_hour(self, tick: Tick) -> Move {
        match self.hour {
            None => SymbolState {
                hour: Some(HourSums::opened(tick.date_key, hour_of(tick.ts_ms), None)),
                ..self
            }.stay(),
            Some(hour) => if hour.is_before(tick) {
                let left = self.close_hour(tick.symbol);
                Move {
                    state: SymbolState {
                        hour: Some(
                            HourSums::opened(tick.date_key, hour_of(tick.ts_ms), hour.last_price),
                        ),
                        ..left.state
                    },
                    ..left
                }
            } else {
                self.stay()
            },
        }
    }

    /// Turns to the minute of the trade: an earlier minute is put out.
    pub open spec fn to_minute(self, tick: Tick) -> Move {
        match self.minute {
            Some(bar) if bar.is_before(tick) => self.close_minute(tick.symbol),
            _ => self.stay(),
        }
    }

    /// Puts out any minute other than that of the trade.
    pub open spec fn leave_minute(self, tick: Tick) -> Move {
        match self.minute {
            Some(bar) if !bar.covers(tick) => self.close_minute(tick.symbol),
            _ => self.stay(),
        }
    }

    /// Takes the trade into the current hour and the current minute.
    pub open spec fn take_in(self, tick: Tick) -> SymbolState {
        SymbolState {
            hour: match self.hour {
                Some(hour) => Some(hour.with(tick)),
                None => None,
            },
            minute: match self.minute {
                Some(bar) => Some(bar.with(tick)),
                None => Some(MinuteBar::of(tick)),
            },
            last_seen_ms: Some(tick.ts_ms),
            ..self
        }
    }

    /// What the trade does: the date, the hour and the minute turn to those of
    /// the trade, in this order, and then take it in.
    pub open spec fn record(self, tick: Tick) -> Move {
        let date = self.to_date(tick);
        let hour = date.state.to_hour(tick);
        let minute = hour.state.to_minute(tick);
        let left = minute.state.leave_minute(tick);
        Move {
            state: left.state.take_in(tick),
            lines: date.lines + hour.lines + minute.lines + left.lines,
        }
    }

    /// What the end of the input does.
    pub open spec fn finish(self, symbol: Seq<char>) -> Move {
        let left = self.close_all(symbol);
        Move { state: SymbolState { date_key: None, ..left.state }, ..left }
    }

    /// Nothing leaves the machine's numbers when the current hour is put out.
    pub open spec fn can_close(self) -> bool {
        self.hour matches Some(hour) ==> hour.can_close()
    }

    /// Nothing leaves the machine's numbers when the trade is recorded.
    pub open spec fn can_record(self, tick: Tick) -> bool {
        let date = self.to_date(tick).state;
        let hour = date.to_hour(tick).state;
        let minute = hour.to_minute(tick).state.leave_minute(tick).state;
        &&& self.date_key is Some && self.date_key != Some(tick.date_key) ==> self.can_close()
        &&& date.hour matches Some(open) ==> open.is_before(tick) ==> open.can_close()
        &&& hour.hour matches Some(open) ==> open.can_take(tick)
        &&& minute.minute matches Some(bar) ==> bar.with(tick).volume <= u64::MAX
    }
}

/// The running state of one symbol.
#[derive(Debug, Clone, Copy)]
pub struct SymbolAgg {
    pub cur_date_key: Option<u32>,
    pub cur_hour: Option<HourAgg>,
    pub cur_min: Option<MinuteAgg>,
    pub last_seen_ts_ms: Option<u32>,
    pub rsi_1m: RsiState,
}

impl View for SymbolAgg {
    type V = SymbolState;

    open spec fn view(&self) -> SymbolState {
        SymbolState {
            date_key: self.cur_date_key,
            hour: match self.cur_hour {
                Some(hour) => Some(hour@),
                None => None,
            },
            minute: match self.cur_min {
                Some(bar) => Some(bar@),
                None => None,
            },
            last_seen_ms: self.last_seen_ts_ms,
            rsi: self.rsi_1m,
        }
    }
}

impl Default for SymbolAgg {
    fn default() -> (agg: SymbolAgg)
        ensures
            agg@ == SymbolState::fresh(),
    {
        SymbolAgg {
            cur_date_key: None,
            cur_hour: None,
            cur_min: None,
            last_seen_ts_ms: None,
            rsi_1m: RsiState::default(),
        }
    }
}

impl SymbolAgg {
    /// Refuses a trade that is earlier than one already taken.
    pub fn check_ts_order(&self, tick: &ParsedTick<'_>) -> (res: Result<(), AppError>)
        ensures
            match res {
                Ok(()) => self@.order_fault(tick@) is None,
                Err(e) => self@.order_fault(tick@) == Some(e@),
            },
    {
        if let Some(cur_date_key) = self.cur_date_key {
            if tick.date_key < cur_date_key {
                return Err(
                    AppError::OutOfOrderDate {
                        symbol: tick.symbol.to_owned(),
                        got: tick.date_key,
                        current: cur_date_key,
                    },
                );
            }
            if tick.date_key == cur_date_key {
                if let Some(last_seen) = self.last_seen_ts_ms {
                    if tick.ts_ms < last_seen {
                        return Err(
                            AppError::OutOfOrderTime {
                                symbol: tick.symbol.to_owned(),
                                date_key: tick.date_key,
                                got_ms: tick.ts_ms,
                                current_ms: last_seen,
                            },
                        );
                    }
                }
            }
        }
        Ok(())
    }

    /// Puts out a finished minute bar, which counts as a close of the strength index.
    pub fn write_minute_bar(&mut self, symbol: &str, bar: MinuteAgg, out: &mut Vec<Record>)
        ensures
            final(self)@ == (SymbolState { rsi: old(self)@.rsi.after(bar.close), ..old(self)@ }),
            lines(final(out)@) == lines(old(out)@).push(
                Line::Minute {
                    symbol: symbol@,
                    bar: bar@,
                    rsi14: old(self)@.rsi.step(bar.close),
                },
            ),
    {
        let rsi: RsiStep = self.rsi_1m.on_close(bar.close);
        let finalized: MinuteFinal = bar.finalize(rsi);
        let record = Record::Minute { symbol: symbol.to_owned(), bar: finalized };
        proof {
            lemma_lines_push(out@, record);
        }
        out.push(record);
    }

    /// Puts out the hour as it stands at its end.
    fn write_hour(symbol: &str, hour: HourAgg, out: &mut Vec<Record>)
        requires
            hour@.can_close(),
        ensures
            lines(final(out)@) == lines(old(out)@).push(
                Line::Hour { symbol: symbol@, hour: hour@.closed() },
            ),
    {
        let mut hour: HourAgg = hour;
        hour.add_twap(hour.end_ms());
        let record = Record::Hour { symbol: symbol.to_owned(), hour };
        proof {
            lemma_lines_push(out@, record);
        }
        out.push(record);
    }

    /// Puts out the current minute and the current hour.
    pub fn flush_current(&mut self, symbol: &str, out: &mut Vec<Record>)
        requires
            old(self)@.can_close(),
        ensures
            final(self)@ == old(self)@.close_all(symbol@).state,
            lines(final(out)@) == lines(old(out)@) + old(self)@.close_all(symbol@).lines,
    {
        if let Some(bar) = self.cur_min {
            self.cur_min = None;
            self.write_minute_bar(symbol, bar, out);
        }
        if let Some(hour) = self.cur_hour {
            self.cur_hour = None;
            Self::write_hour(symbol, hour, out);
        }
        self.last_seen_ts_ms = None;
        assert(lines(out@) =~= lines(old(out)@) + old(self)@.close_all(symbol@).lines);
    }

    /// Turns to the date of the trade.
    pub fn check_date(&mut self, tick: &ParsedTick<'_>, out: &mut Vec<Record>)
        requires
            old(self)@.date_key is Some && old(self)@.date_key != Some(tick.date_key) ==> old(
                self,
            )@.can_close(),
        ensures
            final(self)@ == old(self)@.to_date(tick@).state,
            lines(final(out)@) == lines(old(out)@) + old(self)@.to_date(tick@).lines,
    {
        if let Some(cur_date_key) = self.cur_date_key {
            if cur_date_key != tick.date_key {
                self.flush_current(tick.symbol, out);
            }
        }
        self.cur_date_key = Some(tick.date_key);
        assert(lines(out@) =~= lines(old(out)@) + old(self)@.to_date(tick@).lines);
    }

    /// Turns to the hour of the trade.
    pub fn check_hour(&mut self, tick: &ParsedTick<'_>, out: &mut Vec<Record>)
        requires
            old(self)@.hour matches Some(hour) ==> hour.is_before(tick@) ==> hour.can_close(),
        ensures
            final(self)@ == old(self)@.to_hour(tick@).state,
            lines(final(out)@) == lines(old(out)@) + old(self)@.to_hour(tick@).lines,
    {
        let target_hour_start: u32 = HourAgg::floor_ms(tick.ts_ms);
        match self.cur_hour {
            None => {
                self.cur_hour = Some(HourAgg::new(tick.date_key, target_hour_start));
            },
            Some(hour) => {
                if hour.date_key < tick.date_key || (hour.date_key == tick.date_key
                    && hour.hour_start_ms < target_hour_start) {
                    Self::write_hour(tick.symbol, hour, out);
                    self.cur_hour =
                    Some(HourAgg::with_carry(tick.date_key, target_hour_start, hour.last_price));
                }
            },
        }
        assert(lines(out@) =~= lines(old(out)@) + old(self)@.to_hour(tick@).lines);
    }

    /// Turns to the minute of the trade.
    pub fn check_minute(&mut self, tick: &ParsedTick<'_>, out: &mut Vec<Record>)
        ensures
            final(self)@ == old(self)@.to_minute(tick@).state,
            lines(final(out)@) == lines(old(out)@) + old(self)@.to_minute(tick@).lines,
    {
        let target_min_start: u32 = MinuteAgg::floor_ms(tick.ts_ms);
        if let Some(bar) = self.cur_min {
            if bar.date_key < tick.date_key || (bar.date_key == tick.date_key
                && bar.minute_start_ms < target_min_start) {
                self.cur_min = None;
                self.write_minute_bar(tick.symbol, bar, out);
            }
        }
        assert(lines(out@) =~= lines(old(out)@) + old(self)@.to_minute(tick@).lines);
    }

    /// Takes one more trade.
    pub fn record_parsed_tick(&mut self, tick: &ParsedTick<'_>, out: &mut Vec<Record>)
        requires
            old(self)@.can_record(tick@),
        ensures
            final(self)@ == old(self)@.record(tick@).state,
            lines(final(out)@) == lines(old(out)@) + old(self)@.record(tick@).lines,
    {
        self.check_date(tick, out);
        self.check_hour(tick, out);
        self.check_minute(tick, out);
        if let Some(hour) = self.cur_hour {
            let mut hour: HourAgg = hour;
            hour.record_parsed_tick(tick);
            self.cur_hour = Some(hour);
        }
        let min_start: u32 = MinuteAgg::floor_ms(tick.ts_ms);
        match self.cur_min {
            None => {
                self.cur_min =
                Some(MinuteAgg::new(tick.date_key, min_start, tick.price, tick.volume));
            },
            Some(bar) => {
                if bar.date_key == tick.date_key && bar.minute_start_ms == min_start {
                    let mut bar: MinuteAgg = bar;
                    bar.record_parsed_tick(tick);
                    self.cur_min = Some(bar);
                } else {
                    self.write_minute_bar(tick.symbol, bar, out);
                    self.cur_min =
                    Some(MinuteAgg::new(tick.date_key, min_start, tick.price, tick.volume));
                }
            },
        }
        self.last_seen_ts_ms = Some(tick.ts_ms);
        assert(lines(out@) =~= lines(old(out)@) + old(self)@.record(tick@).lines);
    }

    /// Ends the input: puts out what is current and forgets the date.
    pub fn flush(&mut self, symbol: &str, out: &mut Vec<Record>)
        requires
            old(self)@.can_close(),
        ensures
            final(self)@ == old(self)@.finish(symbol@).state,
            lines(final(out)@) == lines(old(out)@) + old(self)@.finish(symbol@).lines,
    {
        self.flush_current(symbol, out);
        self.cur_date_key = None;
    }
}

/// After a trade, whatever the state before it, a trade of the same symbol is
/// refused if and only if it is earlier. At the very start none is refused.
pub proof fn law_order_after_trade(state: SymbolState, tick: Tick, next: Tick)
    ensures
        state.record(tick).state.order_fault(next) is Some <==> next.date_key < tick.date_key || (
        next.date_key == tick.date_key && next.ts_ms < tick.ts_ms),
        next.date_key < tick.date_key ==> state.record(tick).state.order_fault(next) == Some(
            Fault::OutOfOrderDate {
                symbol: next.symbol,
                got: next.date_key,
                current: tick.date_key,
            },
        ),
        next.date_key == tick.date_key && next.ts_ms < tick.ts_ms ==> state.record(
            tick,
        ).state.order_fault(next) == Some(
            Fault::OutOfOrderTime {
                symbol: next.symbol,
                date_key: tick.date_key,
                got_ms: next.ts_ms,
                current_ms: tick.ts_ms,
            },
        ),
        SymbolState::fresh().order_fault(next) is None,
{
}

/// The state of a symbol is seen as what its fields hold.
pub proof fn law_states_are_seen_as_they_are(agg: SymbolAgg)
    ensures
        agg@.date_key == agg.cur_date_key,
        agg@.last_seen_ms == agg.last_seen_ts_ms,
        agg@.rsi == agg.rsi_1m,
        agg.cur_hour is None <==> agg@.hour is None,
        agg.cur_hour matches Some(hour) ==> agg@.hour == Some(hour@),
        agg.cur_min is None <==> agg@.minute is None,
        agg.cur_min matches Some(bar) ==> agg@.minute == Some(bar@),
{
}

} // verus!
