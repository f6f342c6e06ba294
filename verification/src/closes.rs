//! The strength index and the minute lines: each minute line is one close.
use vstd::prelude::*;

use crate::history::{replay, whole_output};
use crate::parse::Tick;
use crate::record::Line;
use crate::rsi::{after_closes, change_in, fall, law_steps_of_closes, rise, RsiState};
use crate::symbol::SymbolState;

verus! {

/// The closes of the minute lines.
pub open spec fn closes(lines: Seq<Line>) -> Seq<u64>
    decreases lines.len(),
{
    if lines.len() == 0 {
        Seq::empty()
    } else {
        match lines.last() {
            Line::Minute { bar, .. } => closes(lines.drop_last()).push(bar.close),
            _ => closes(lines.drop_last()),
        }
    }
}

/// Every minute line shows the step that its close is in the series of the
/// closes of the minute lines before it.
pub open spec fn steps_follow(lines: Seq<Line>) -> bool {
    forall|i: int|
        0 <= i < lines.len() ==> step_follows(lines.take(i), #[trigger] lines[i])
}

/// A minute line shows the step of its close after the lines `earlier`.
pub open spec fn step_follows(earlier: Seq<Line>, line: Line) -> bool {
    line matches Line::Minute { bar, rsi14, .. } ==> rsi14 == after_closes(closes(earlier)).step(
        bar.close,
    )
}

/// The lines follow the schedule up to the state `rsi`.
pub open spec fn on_schedule(lines: Seq<Line>, rsi: RsiState) -> bool {
    steps_follow(lines) && rsi == after_closes(closes(lines))
}

proof fn lemma_push(lines: Seq<Line>, rsi: RsiState, line: Line)
    requires
        on_schedule(lines, rsi),
        step_follows(lines, line),
    ensures
        on_schedule(
            lines.push(line),
            match line {
                Line::Minute { bar, .. } => rsi.after(bar.close),
                _ => rsi,
            },
        ),
{
    let next = lines.push(line);
    assert(next.drop_last() =~= lines);
    assert forall|i: int| 0 <= i < next.len() implies step_follows(
        next.take(i),
        #[trigger] next[i],
    ) by {
        assert(next.take(i) =~= lines.take(i));
        if i < lines.len() {
            assert(next[i] == lines[i]);
        } else {
            assert(lines.take(i) =~= lines);
        }
    }
    if let Line::Minute { bar, .. } = line {
        let c = closes(lines);
        assert(c.push(bar.close).drop_last() =~= c);
    }
}

proof fn lemma_close_minute(lines: Seq<Line>, state: SymbolState, symbol: Seq<char>)
    requires
        on_schedule(lines, state.rsi),
    ensures
        on_schedule(
            lines + state.close_minute(symbol).lines,
            state.close_minute(symbol).state.rsi,
        ),
{
    match state.minute {
        Some(bar) => {
            let line = Line::Minute { symbol, bar, rsi14: state.rsi.step(bar.close) };
            lemma_push(lines, state.rsi, line);
            assert(lines + seq![line] =~= lines.push(line));
        },
        None => {
            assert(lines + Seq::<Line>::empty() =~= lines);
        },
    }
}

proof fn lemma_close_hour(lines: Seq<Line>, state: SymbolState, symbol: Seq<char>)
    requires
        on_schedule(lines, state.rsi),
    ensures
        on_schedule(lines + state.close_hour(symbol).lines, state.close_hour(symbol).state.rsi),
{
    match state.hour {
        Some(hour) => {
            let line = Line::Hour { symbol, hour: hour.closed() };
            lemma_push(lines, state.rsi, line);
            assert(lines + seq![line] =~= lines.push(line));
        },
        None => {
            assert(lines + Seq::<Line>::empty() =~= lines);
        },
    }
}

proof fn lemma_close_all(lines: Seq<Line>, state: SymbolState, symbol: Seq<char>)
    requires
        on_schedule(lines, state.rsi),
    ensures
        on_schedule(lines + state.close_all(symbol).lines, state.close_all(symbol).state.rsi),
{
    let minute = state.close_minute(symbol);
    lemma_close_minute(lines, state, symbol);
    lemma_close_hour(lines + minute.lines, minute.state, symbol);
    let hour = minute.state.close_hour(symbol);
    assert(lines + (minute.lines + hour.lines) =~= lines + minute.lines + hour.lines);
}

proof fn lemma_record(lines: Seq<Line>, state: SymbolState, tick: Tick)
    requires
        on_schedule(lines, state.rsi),
    ensures
        on_schedule(lines + state.record(tick).lines, state.record(tick).state.rsi),
{
    let date = state.to_date(tick);
    let hour = date.state.to_hour(tick);
    let minute = hour.state.to_minute(tick);
    let left = minute.state.leave_minute(tick);
    let a = lines + date.lines;
    let b = a + hour.lines;
    let c = b + minute.lines;
    assert(lines + Seq::<Line>::empty() =~= lines);
    lemma_close_all(lines, state, tick.symbol);
    assert(on_schedule(a, date.state.rsi));
    assert(a + Seq::<Line>::empty() =~= a);
    lemma_close_hour(a, date.state, tick.symbol);
    assert(on_schedule(b, hour.state.rsi));
    assert(b + Seq::<Line>::empty() =~= b);
    lemma_close_minute(b, hour.state, tick.symbol);
    assert(on_schedule(c, minute.state.rsi));
    assert(c + Seq::<Line>::empty() =~= c);
    lemma_close_minute(c, minute.state, tick.symbol);
    assert(lines + state.record(tick).lines =~= c + left.lines);
}

/// The minute lines of a symbol are the closes of its strength index, over all
/// dates, and each shows the step that it is in their series.
pub proof fn law_minute_lines_are_closes(symbol: Seq<char>, ticks: Seq<Tick>)
    ensures
        replay(ticks).state.rsi == after_closes(closes(replay(ticks).lines)),
        steps_follow(whole_output(symbol, ticks)),
{
    lemma_replay(ticks);
    lemma_close_all(replay(ticks).lines, replay(ticks).state, symbol);
}

proof fn lemma_replay(ticks: Seq<Tick>)
    ensures
        on_schedule(replay(ticks).lines, replay(ticks).state.rsi),
    decreases ticks.len(),
{
    if ticks.len() > 0 {
        let init = replay(ticks.drop_last());
        lemma_replay(ticks.drop_last());
        lemma_record(init.lines, init.state, ticks.last());
    }
}

/// The index on a minute line of a symbol goes by the minute lines before it,
/// over all dates: it has a value if and only if there are at least fourteen of
/// them, and its change is a gain, a loss or neither just as this line closes
/// higher than the last of them, lower or the same.
pub proof fn law_index_on_minute_lines(symbol: Seq<char>, ticks: Seq<Tick>, i: int)
    requires
        0 <= i < whole_output(symbol, ticks).len(),
    ensures
        whole_output(symbol, ticks)[i] matches Line::Minute { bar, rsi14, .. } ==> {
            let earlier = closes(whole_output(symbol, ticks).take(i));
            let close = bar.close;
            &&& rsi14.spec_has_value() <==> earlier.len() >= 14
            &&& earlier.len() == 0 <==> rsi14 is First
            &&& earlier.len() == 14 <==> rsi14 is Seed
            &&& earlier.len() > 14 <==> rsi14 is Smooth
            &&& earlier.len() > 0 ==> {
                let prev = earlier.last();
                &&& change_in(rsi14) is Some
                &&& rise(change_in(rsi14)->0) - fall(change_in(rsi14)->0) == close - prev
                &&& change_in(rsi14)->0 is Gain <==> close > prev
                &&& change_in(rsi14)->0 is Loss <==> close < prev
                &&& change_in(rsi14)->0 is Flat <==> close == prev
            }
        },
{
    let all = whole_output(symbol, ticks);
    law_minute_lines_are_closes(symbol, ticks);
    assert(step_follows(all.take(i), all[i]));
    if let Line::Minute { bar, .. } = all[i] {
        law_steps_of_closes(closes(all.take(i)), bar.close);
    }
}

} // verus!
