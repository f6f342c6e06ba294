//! Nothing is lost and nothing is counted twice: what the lines show adds up
//! to the totals.
use vstd::prelude::*;

use crate::agg::{last_lines, AggState};
use crate::parse::Tick;
use crate::record::Line;
use crate::symbol::SymbolState;
use crate::table::{ascending, lemma_place, listed, place, put, state_of, Entry};

verus! {

/// What is added up over lines, and what of it is still open.
pub struct Sums {
    /// Volumes by minute.
    pub minute_volume: nat,
    /// Volumes by hour.
    pub hour_volume: nat,
    /// Traded values by hour.
    pub hour_value: nat,
}

impl Sums {
    /// Nothing.
    pub open spec fn zero() -> Sums {
        Sums { minute_volume: 0, hour_volume: 0, hour_value: 0 }
    }

    /// Both together.
    pub open spec fn plus(self, other: Sums) -> Sums {
        Sums {
            minute_volume: self.minute_volume + other.minute_volume,
            hour_volume: self.hour_volume + other.hour_volume,
            hour_value: self.hour_value + other.hour_value,
        }
    }
}

/// What a trade adds.
pub open spec fn of_tick(tick: Tick) -> Sums {
    Sums {
        minute_volume: tick.volume as nat,
        hour_volume: tick.volume as nat,
        hour_value: tick.price as nat * tick.volume as nat,
    }
}

/// What a line shows.
pub open spec fn of_line(line: Line) -> Sums {
    match line {
        Line::Minute { bar, .. } => Sums { minute_volume: bar.volume, ..Sums::zero() },
        Line::Hour { hour, .. } => Sums {
            hour_volume: hour.vol,
            hour_value: hour.pv,
            ..Sums::zero()
        },
        Line::Summary { .. } => Sums::zero(),
    }
}

/// What lines show together.
pub open spec fn of_lines(lines: Seq<Line>) -> Sums
    decreases lines.len(),
{
    if lines.len() == 0 {
        Sums::zero()
    } else {
        of_lines(lines.drop_last()).plus(of_line(lines.last()))
    }
}

/// What is current in the state of a symbol.
pub open spec fn of_state(state: SymbolState) -> Sums {
    Sums {
        minute_volume: match state.minute {
            Some(bar) => bar.volume,
            None => 0,
        },
        hour_volume: match state.hour {
            Some(hour) => hour.vol,
            None => 0,
        },
        hour_value: match state.hour {
            Some(hour) => hour.pv,
            None => 0,
        },
    }
}

/// What is current in the states of all symbols.
pub open spec fn of_entries(entries: Seq<Entry>) -> Sums
    decreases entries.len(),
{
    if entries.len() == 0 {
        Sums::zero()
    } else {
        of_entries(entries.drop_last()).plus(of_state(entries.last().state))
    }
}

/// Lines of two outputs show together what each shows.
pub proof fn lemma_of_lines_concat(a: Seq<Line>, b: Seq<Line>)
    ensures
        of_lines(a + b) == of_lines(a).plus(of_lines(b)),
    decreases b.len(),
{
    if b.len() == 0 {
        assert(a + b =~= a);
    } else {
        lemma_of_lines_concat(a, b.drop_last());
        assert((a + b).drop_last() =~= a + b.drop_last());
    }
}

/// A line by itself.
proof fn lemma_of_one_line(line: Line)
    ensures
        of_lines(seq![line]) == of_line(line),
        of_lines(Seq::<Line>::empty()) == Sums::zero(),
{
    assert(seq![line].drop_last() =~= Seq::<Line>::empty());
    reveal_with_fuel(of_lines, 2);
}

/// What a minute shows when it is put out was current before.
proof fn lemma_close_minute_balances(state: SymbolState, symbol: Seq<char>)
    ensures
        of_lines(state.close_minute(symbol).lines).plus(
            of_state(state.close_minute(symbol).state),
        ) == of_state(state),
{
    match state.minute {
        Some(bar) => {
            lemma_of_one_line(Line::Minute { symbol, bar, rsi14: state.rsi.step(bar.close) });
        },
        None => {},
    }
}

/// What an hour shows when it is put out was current before.
proof fn lemma_close_hour_balances(state: SymbolState, symbol: Seq<char>)
    ensures
        of_lines(state.close_hour(symbol).lines).plus(of_state(state.close_hour(symbol).state))
            == of_state(state),
{
    match state.hour {
        Some(hour) => {
            lemma_of_one_line(Line::Hour { symbol, hour: hour.closed() });
        },
        None => {},
    }
}

/// What is put out of a symbol was current before.
proof fn lemma_close_all_balances(state: SymbolState, symbol: Seq<char>)
    ensures
        of_lines(state.close_all(symbol).lines).plus(of_state(state.close_all(symbol).state))
            == of_state(state),
{
    let minute = state.close_minute(symbol);
    let hour = minute.state.close_hour(symbol);
    lemma_close_minute_balances(state, symbol);
    lemma_close_hour_balances(minute.state, symbol);
    lemma_of_lines_concat(minute.lines, hour.lines);
}

/// A trade adds itself to what is put out and what is current, whatever the
/// state it comes to.
pub proof fn law_trade_balances(state: SymbolState, tick: Tick)
    ensures
        of_lines(state.record(tick).lines).plus(of_state(state.record(tick).state)) == of_state(
            state,
        ).plus(of_tick(tick)),
{
    let date = state.to_date(tick);
    let hour = date.state.to_hour(tick);
    let minute = hour.state.to_minute(tick);
    let left = minute.state.leave_minute(tick);
    lemma_close_all_balances(state, tick.symbol);
    lemma_close_hour_balances(date.state, tick.symbol);
    lemma_close_minute_balances(hour.state, tick.symbol);
    lemma_close_minute_balances(minute.state, tick.symbol);
    assert(of_lines(date.lines).plus(of_state(date.state)) == of_state(state));
    assert(of_lines(hour.lines).plus(of_state(hour.state)) == of_state(date.state));
    assert(of_lines(minute.lines).plus(of_state(minute.state)) == of_state(hour.state));
    assert(of_lines(left.lines).plus(of_state(left.state)) == of_state(minute.state));
    lemma_of_lines_concat(date.lines, hour.lines);
    lemma_of_lines_concat(date.lines + hour.lines, minute.lines);
    lemma_of_lines_concat(date.lines + hour.lines + minute.lines, left.lines);
    assert(left.state.hour is Some);
    assert(of_state(left.state.take_in(tick)) == of_state(left.state).plus(of_tick(tick)));
}

/// At the end of the input everything current is put out.
pub proof fn law_end_balances(state: SymbolState, symbol: Seq<char>)
    ensures
        of_lines(state.finish(symbol).lines) == of_state(state),
{
    lemma_close_all_balances(state, symbol);
    let left = state.close_all(symbol).state;
    assert(left.minute is None && left.hour is None);
}

/// Changing one entry changes the sums by the difference.
proof fn lemma_of_entries_update(entries: Seq<Entry>, p: int, entry: Entry)
    requires
        0 <= p < entries.len(),
    ensures
        of_entries(entries.update(p, entry)).plus(of_state(entries[p].state)) == of_entries(
            entries,
        ).plus(of_state(entry.state)),
    decreases entries.len(),
{
    let next = entries.update(p, entry);
    if p == entries.len() - 1 {
        assert(next.drop_last() =~= entries.drop_last());
    } else {
        lemma_of_entries_update(entries.drop_last(), p, entry);
        assert(next.drop_last() =~= entries.drop_last().update(p, entry));
    }
}

/// One more entry adds its sums.
proof fn lemma_of_entries_insert(entries: Seq<Entry>, p: int, entry: Entry)
    requires
        0 <= p <= entries.len(),
    ensures
        of_entries(entries.insert(p, entry)) == of_entries(entries).plus(of_state(entry.state)),
    decreases entries.len(),
{
    let next = entries.insert(p, entry);
    if p == entries.len() {
        assert(next.drop_last() =~= entries);
    } else {
        lemma_of_entries_insert(entries.drop_last(), p, entry);
        assert(next.drop_last() =~= entries.drop_last().insert(p, entry));
    }
}

/// Another state for a symbol changes the sums by the difference.
proof fn lemma_of_entries_put(entries: Seq<Entry>, symbol: Seq<char>, state: SymbolState)
    requires
        ascending(entries),
    ensures
        of_entries(put(entries, symbol, state)).plus(of_state(state_of(entries, symbol)))
            == of_entries(entries).plus(of_state(state)),
{
    lemma_place(entries, symbol);
    let p = place(entries, symbol) as int;
    if listed(entries, symbol) {
        lemma_of_entries_update(entries, p, Entry { symbol, state });
    } else {
        lemma_of_entries_insert(entries, p, Entry { symbol, state });
    }
}

/// What is accounted for: what is current, and the totals.
pub open spec fn open_and_total(agg: AggState) -> (Sums, Sums) {
    (
        of_entries(agg.entries),
        Sums {
            minute_volume: agg.totals.volume,
            hour_volume: agg.totals.volume,
            hour_value: agg.totals.pv,
        },
    )
}

/// A trade adds as much to the totals as to what is put out and what is current.
pub proof fn law_totals_balance(agg: AggState, tick: Tick)
    requires
        ascending(agg.entries),
    ensures
        ({
            let done = agg.on_tick(tick);
            let (open0, total0) = open_and_total(agg);
            let (open1, total1) = open_and_total(done.agg);
            of_lines(done.lines).plus(open1).plus(total0) == open0.plus(total1)
        }),
{
    let state = state_of(agg.entries, tick.symbol);
    if agg.order_fault(tick) is None {
        law_trade_balances(state, tick);
        lemma_of_entries_put(agg.entries, tick.symbol, state.record(tick).state);
    }
}

/// What the symbols put out at the end is what was current.
pub proof fn lemma_last_lines_balance(entries: Seq<Entry>)
    ensures
        of_lines(last_lines(entries)) == of_entries(entries),
    decreases entries.len(),
{
    if entries.len() > 0 {
        let last = entries.last();
        lemma_last_lines_balance(entries.drop_last());
        law_end_balances(last.state, last.symbol);
        lemma_of_lines_concat(
            last_lines(entries.drop_last()),
            last.state.finish(last.symbol).lines,
        );
    }
}

} // verus!
