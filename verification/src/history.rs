//! What a symbol puts out, told from the whole series of its trades: every
//! line is about exactly the trades of its minute or its hour.
use vstd::prelude::*;

use crate::clock::MSEC_PER_HOUR;
use crate::hour::{hour_of, lemma_hours_ascend, HourSums};
use crate::minute::{lemma_minutes_ascend, minute_of, MinuteBar};
use crate::parse::Tick;
use crate::record::Line;
use crate::symbol::{Move, SymbolState};
use crate::weighing::{
    area_under, lemma_area_after_last, lemma_area_flat, lemma_area_parts, lemma_area_push,
    value_sum, volume_sum,
};

verus! {

/// `a` is not later than `b`.
pub open spec fn not_after(a: Tick, b: Tick) -> bool {
    a.date_key < b.date_key || (a.date_key == b.date_key && a.ts_ms <= b.ts_ms)
}

/// The trades come in order.
pub open spec fn in_order(ticks: Seq<Tick>) -> bool {
    forall|i: int, j: int|
        0 <= i < j < ticks.len() ==> not_after(#[trigger] ticks[i], #[trigger] ticks[j])
}

/// The trades are all of one symbol.
pub open spec fn all_of(ticks: Seq<Tick>, symbol: Seq<char>) -> bool {
    forall|i: int| 0 <= i < ticks.len() ==> (#[trigger] ticks[i]).symbol == symbol
}

/// The trades of a date.
pub open spec fn on_date(ticks: Seq<Tick>, date_key: u32) -> Seq<Tick> {
    ticks.filter(|t: Tick| t.date_key == date_key)
}

/// The trades of an hour of a date.
pub open spec fn in_hour(ticks: Seq<Tick>, date_key: u32, start_ms: u32) -> Seq<Tick> {
    ticks.filter(|t: Tick| t.date_key == date_key && hour_of(t.ts_ms) == start_ms)
}

/// The trades of a minute of a date.
pub open spec fn in_minute(ticks: Seq<Tick>, date_key: u32, start_ms: u32) -> Seq<Tick> {
    ticks.filter(|t: Tick| t.date_key == date_key && minute_of(t.ts_ms) == start_ms)
}

/// The bar of a series of trades.
pub open spec fn bar_of(ticks: Seq<Tick>) -> MinuteBar
    decreases ticks.len(),
{
    if ticks.len() <= 1 {
        MinuteBar::of(ticks[0])
    } else {
        bar_of(ticks.drop_last()).with(ticks.last())
    }
}

/// What a fresh symbol does with a series of trades.
pub open spec fn replay(ticks: Seq<Tick>) -> Move
    decreases ticks.len(),
{
    if ticks.len() == 0 {
        SymbolState::fresh().stay()
    } else {
        let init = replay(ticks.drop_last());
        let moved = init.state.record(ticks.last());
        Move { state: moved.state, lines: init.lines + moved.lines }
    }
}

/// The bar is that of exactly the trades of its minute.
pub open spec fn bar_holds(ticks: Seq<Tick>, bar: MinuteBar) -> bool {
    let own = in_minute(ticks, bar.date_key, bar.start_ms);
    own.len() > 0 && bar == bar_of(own)
}

/// The sums are those of exactly the trades of the hour, and the area is that
/// under the price in force during the whole of it.
pub open spec fn hour_holds(ticks: Seq<Tick>, hour: HourSums) -> bool {
    let own = in_hour(ticks, hour.date_key, hour.start_ms);
    &&& own.len() > 0
    &&& hour.pv == value_sum(own)
    &&& hour.vol == volume_sum(own)
    &&& hour.area == area_under(
        on_date(ticks, hour.date_key),
        hour.start_ms as int,
        hour.end_ms(),
    )
}

/// The line is true of the series of trades.
pub open spec fn line_holds(symbol: Seq<char>, ticks: Seq<Tick>, line: Line) -> bool {
    match line {
        Line::Minute { symbol: shown, bar, .. } => shown == symbol && bar_holds(ticks, bar),
        Line::Hour { symbol: shown, hour } => shown == symbol && hour_holds(ticks, hour),
        Line::Summary { .. } => false,
    }
}

/// The line is about a minute or an hour that is over at the moment of the trade.
pub open spec fn is_past(line: Line, tick: Tick) -> bool {
    match line {
        Line::Minute { bar, .. } => bar.is_before(tick),
        Line::Hour { hour, .. } => hour.is_before(tick) && hour.start_ms % MSEC_PER_HOUR == 0,
        Line::Summary { .. } => false,
    }
}

/// One more trade: the selections grow where it belongs to them.
pub proof fn lemma_selections_push(ticks: Seq<Tick>, tick: Tick, date_key: u32, start_ms: u32)
    ensures
        on_date(ticks.push(tick), date_key) == if tick.date_key == date_key {
            on_date(ticks, date_key).push(tick)
        } else {
            on_date(ticks, date_key)
        },
        in_hour(ticks.push(tick), date_key, start_ms) == if tick.date_key == date_key && hour_of(
            tick.ts_ms,
        ) == start_ms {
            in_hour(ticks, date_key, start_ms).push(tick)
        } else {
            in_hour(ticks, date_key, start_ms)
        },
        in_minute(ticks.push(tick), date_key, start_ms) == if tick.date_key == date_key
            && minute_of(tick.ts_ms) == start_ms {
            in_minute(ticks, date_key, start_ms).push(tick)
        } else {
            in_minute(ticks, date_key, start_ms)
        },
{
    reveal(Seq::filter);
    assert(ticks.push(tick).drop_last() =~= ticks);
}

/// Sums and bars of one more trade.
pub proof fn lemma_sums_push(ticks: Seq<Tick>, tick: Tick)
    ensures
        volume_sum(ticks.push(tick)) == volume_sum(ticks) + tick.volume,
        value_sum(ticks.push(tick)) == value_sum(ticks) + tick.price as nat * tick.volume as nat,
        ticks.len() > 0 ==> bar_of(ticks.push(tick)) == bar_of(ticks).with(tick),
        ticks.len() == 0 ==> bar_of(ticks.push(tick)) == MinuteBar::of(tick),
{
    assert(ticks.push(tick).drop_last() =~= ticks);
}

/// A line about something over stays true whatever trade follows in order.
proof fn lemma_line_stays(symbol: Seq<char>, ticks: Seq<Tick>, prev: Tick, tick: Tick, line: Line)
    requires
        line_holds(symbol, ticks, line),
        is_past(line, prev),
        not_after(prev, tick),
    ensures
        line_holds(symbol, ticks.push(tick), line),
        is_past(line, tick),
{
    match line {
        Line::Minute { bar, .. } => {
            lemma_selections_push(ticks, tick, bar.date_key, bar.start_ms);
        },
        Line::Hour { hour, .. } => {
            lemma_hour_stays(ticks, tick, hour);
        },
        Line::Summary { .. } => {},
    }
}

/// The hours before that of a trade are not about the trade.
proof fn lemma_hour_stays(ticks: Seq<Tick>, tick: Tick, hour: HourSums)
    requires
        hour_holds(ticks, hour),
        hour.is_before(tick),
        hour.start_ms % MSEC_PER_HOUR == 0,
    ensures
        hour_holds(ticks.push(tick), hour),
{
    lemma_selections_push(ticks, tick, hour.date_key, hour.start_ms);
    if tick.date_key == hour.date_key {
        assert(hour.end_ms() <= tick.ts_ms);
        lemma_area_push(
            on_date(ticks, hour.date_key),
            tick,
            hour.start_ms as int,
            hour.end_ms(),
        );
    }
}

/// What holds of a symbol that has taken the trades.
pub open spec fn caught_up(symbol: Seq<char>, ticks: Seq<Tick>, done: Move) -> bool {
    if ticks.len() == 0 {
        done == SymbolState::fresh().stay()
    } else {
        let last = ticks.last();
        let state = done.state;
        let minute_start = minute_of(last.ts_ms);
        let hour_start = hour_of(last.ts_ms);
        let own = in_hour(ticks, last.date_key, hour_start);
        &&& state.date_key == Some(last.date_key)
        &&& state.last_seen_ms == Some(last.ts_ms)
        &&& in_minute(ticks, last.date_key, minute_start).len() > 0
        &&& state.minute == Some(bar_of(in_minute(ticks, last.date_key, minute_start)))
        &&& state.minute->0.date_key == last.date_key
        &&& state.minute->0.start_ms == minute_start
        &&& own.len() > 0
        &&& state.hour == Some(
            HourSums {
                date_key: last.date_key,
                start_ms: hour_start,
                pv: value_sum(own),
                vol: volume_sum(own),
                area: area_under(
                    on_date(ticks, last.date_key),
                    hour_start as int,
                    last.ts_ms as int,
                ),
                last_price: Some(last.price),
                last_ts_ms: Some(last.ts_ms),
            },
        )
        &&& on_date(ticks, last.date_key).len() > 0
        &&& on_date(ticks, last.date_key).last() == last
        &&& forall|i: int|
            0 <= i < done.lines.len() ==> line_holds(symbol, ticks, #[trigger] done.lines[i])
                && is_past(done.lines[i], last)
    }
}

/// The current hour, put out at its end, is told truly.
proof fn lemma_closed_hour_holds(symbol: Seq<char>, ticks: Seq<Tick>, done: Move)
    requires
        ticks.len() > 0,
        caught_up(symbol, ticks, done),
    ensures
        hour_holds(ticks, done.state.hour->0.closed()),
        done.state.hour->0.closed().date_key == ticks.last().date_key,
        done.state.hour->0.closed().start_ms == hour_of(ticks.last().ts_ms),
{
    let last = ticks.last();
    let day = on_date(ticks, last.date_key);
    let hour = done.state.hour->0;
    lemma_area_parts(day, hour.start_ms as int, last.ts_ms as int, hour.end_ms());
    lemma_area_after_last(day, last.ts_ms as int, hour.end_ms());
}

/// No earlier trade is of a date, hour or minute that starts with a later one.
pub proof fn lemma_selection_starts(ticks: Seq<Tick>, tick: Tick)
    requires
        in_order(ticks.push(tick)),
    ensures
        ticks.len() == 0 || ticks.last().date_key != tick.date_key ==> on_date(
            ticks,
            tick.date_key,
        ).len() == 0,
        ticks.len() == 0 || ticks.last().date_key != tick.date_key || hour_of(ticks.last().ts_ms)
            != hour_of(tick.ts_ms) ==> in_hour(ticks, tick.date_key, hour_of(tick.ts_ms)).len()
            == 0,
        ticks.len() == 0 || ticks.last().date_key != tick.date_key || minute_of(
            ticks.last().ts_ms,
        ) != minute_of(tick.ts_ms) ==> in_minute(
            ticks,
            tick.date_key,
            minute_of(tick.ts_ms),
        ).len() == 0,
{
    let whole = ticks.push(tick);
    let date_key = tick.date_key;
    let hour_start = hour_of(tick.ts_ms);
    let minute_start = minute_of(tick.ts_ms);
    if ticks.len() > 0 {
        let prev = ticks.last();
        assert(whole[ticks.len() - 1] == prev);
        assert(whole[ticks.len() as int] == tick);
        assert(not_after(prev, tick));
        if prev.date_key == date_key {
            lemma_minutes_ascend(prev.ts_ms, tick.ts_ms);
            lemma_hours_ascend(prev.ts_ms, tick.ts_ms);
        }
        assert forall|i: int| 0 <= i < ticks.len() implies {
            &&& not_after(#[trigger] ticks[i], prev)
            &&& ticks[i].date_key == prev.date_key ==> minute_of(ticks[i].ts_ms) <= minute_of(
                prev.ts_ms,
            ) && hour_of(ticks[i].ts_ms) <= hour_of(prev.ts_ms)
        } by {
            assert(whole[i] == ticks[i]);
            if i < ticks.len() - 1 {
                assert(not_after(whole[i], whole[ticks.len() - 1]));
            }
            if ticks[i].date_key == prev.date_key {
                lemma_minutes_ascend(ticks[i].ts_ms, prev.ts_ms);
                lemma_hours_ascend(ticks[i].ts_ms, prev.ts_ms);
            }
        }
    }
    if ticks.len() == 0 || ticks.last().date_key != date_key {
        ticks.lemma_all_neg_filter_empty(|t: Tick| t.date_key == date_key);
    }
    if ticks.len() == 0 || ticks.last().date_key != date_key || hour_of(ticks.last().ts_ms)
        != hour_start {
        ticks.lemma_all_neg_filter_empty(
            |t: Tick| t.date_key == date_key && hour_of(t.ts_ms) == hour_start,
        );
    }
    if ticks.len() == 0 || ticks.last().date_key != date_key || minute_of(ticks.last().ts_ms)
        != minute_start {
        ticks.lemma_all_neg_filter_empty(
            |t: Tick| t.date_key == date_key && minute_of(t.ts_ms) == minute_start,
        );
    }
}

/// The lines that a trade brings out are true, and about something over.
proof fn lemma_new_lines_hold(symbol: Seq<char>, ticks: Seq<Tick>, tick: Tick, done: Move)
    requires
        ticks.len() > 0,
        caught_up(symbol, ticks, done),
        not_after(ticks.last(), tick),
        tick.symbol == symbol,
    ensures
        forall|i: int|
            0 <= i < done.state.record(tick).lines.len() ==> line_holds(
                symbol,
                ticks.push(tick),
                #[trigger] done.state.record(tick).lines[i],
            ) && is_past(done.state.record(tick).lines[i], tick),
{
    let last = ticks.last();
    let bar = done.state.minute->0;
    let hour = done.state.hour->0;
    lemma_closed_hour_holds(symbol, ticks, done);
    if bar.is_before(tick) {
        lemma_selections_push(ticks, tick, bar.date_key, bar.start_ms);
        assert(bar_holds(ticks.push(tick), bar));
    }
    if hour.is_before(tick) {
        lemma_hour_stays(ticks, tick, hour.closed());
    }
    if last.date_key == tick.date_key {
        lemma_minutes_ascend(last.ts_ms, tick.ts_ms);
        lemma_hours_ascend(last.ts_ms, tick.ts_ms);
    }
    assert(bar.is_before(tick) || bar.covers(tick));
    if last.date_key != tick.date_key {
        assert(bar.is_before(tick) && hour.is_before(tick));
    }
}

/// A trade in order keeps a symbol caught up.
proof fn lemma_step(symbol: Seq<char>, ticks: Seq<Tick>, tick: Tick, done: Move)
    requires
        caught_up(symbol, ticks, done),
        in_order(ticks.push(tick)),
        tick.symbol == symbol,
    ensures
        ({
            let moved = done.state.record(tick);
            caught_up(
                symbol,
                ticks.push(tick),
                Move { state: moved.state, lines: done.lines + moved.lines },
            )
        }),
{
    let whole = ticks.push(tick);
    let date_key = tick.date_key;
    let hour_start = hour_of(tick.ts_ms);
    let minute_start = minute_of(tick.ts_ms);
    let moved = done.state.record(tick);
    let all = done.lines + moved.lines;
    let day0 = on_date(ticks, date_key);
    let day = on_date(whole, date_key);
    assert(whole.last() == tick);
    lemma_selection_starts(ticks, tick);
    lemma_selections_push(ticks, tick, date_key, hour_start);
    lemma_selections_push(ticks, tick, date_key, minute_start);
    lemma_sums_push(in_hour(ticks, date_key, hour_start), tick);
    lemma_sums_push(in_minute(ticks, date_key, minute_start), tick);
    lemma_area_push(day0, tick, hour_start as int, tick.ts_ms as int);
    if ticks.len() == 0 {
        assert(day0 =~= Seq::<Tick>::empty());
        lemma_area_flat(day0, hour_start as int, tick.ts_ms as int, 0);
        assert(0 * (tick.ts_ms - hour_start) as nat == 0) by (nonlinear_arith);
    } else {
        let prev = ticks.last();
        assert(whole[ticks.len() - 1] == prev && whole[ticks.len() as int] == tick);
        assert(not_after(prev, tick));
        lemma_new_lines_hold(symbol, ticks, tick, done);
        assert forall|i: int| 0 <= i < all.len() implies line_holds(
            symbol,
            whole,
            #[trigger] all[i],
        ) && is_past(all[i], tick) by {
            if i < done.lines.len() {
                assert(all[i] == done.lines[i]);
                lemma_line_stays(symbol, ticks, prev, tick, done.lines[i]);
            } else {
                assert(all[i] == moved.lines[i - done.lines.len()]);
            }
        }
        if prev.date_key != date_key {
            assert(day0 =~= Seq::<Tick>::empty());
            lemma_area_flat(day0, hour_start as int, tick.ts_ms as int, 0);
            assert(0 * (tick.ts_ms - hour_start) as nat == 0) by (nonlinear_arith);
        } else if hour_of(prev.ts_ms) != hour_start {
            lemma_area_after_last(day0, hour_start as int, tick.ts_ms as int);
        } else {
            lemma_area_parts(day0, hour_start as int, prev.ts_ms as int, tick.ts_ms as int);
            lemma_area_after_last(day0, prev.ts_ms as int, tick.ts_ms as int);
        }
    }
}

/// A symbol that has taken trades in order has caught up with them.
pub proof fn lemma_caught_up(symbol: Seq<char>, ticks: Seq<Tick>)
    requires
        in_order(ticks),
        all_of(ticks, symbol),
    ensures
        caught_up(symbol, ticks, replay(ticks)),
    decreases ticks.len(),
{
    if ticks.len() > 0 {
        let init = ticks.drop_last();
        assert(ticks =~= init.push(ticks.last()));
        assert(in_order(init)) by {
            assert forall|i: int, j: int| 0 <= i < j < init.len() implies not_after(
                #[trigger] init[i],
                #[trigger] init[j],
            ) by {
                assert(init[i] == ticks[i] && init[j] == ticks[j]);
            }
        }
        assert(all_of(init, symbol)) by {
            assert forall|i: int| 0 <= i < init.len() implies (#[trigger] init[i]).symbol
                == symbol by {
                assert(init[i] == ticks[i]);
            }
        }
        lemma_caught_up(symbol, init);
        assert(ticks[ticks.len() - 1].symbol == symbol);
        lemma_step(symbol, init, ticks.last(), replay(init));
    }
}

/// All that a symbol puts out for a series of trades, up to the end of the input.
pub open spec fn whole_output(symbol: Seq<char>, ticks: Seq<Tick>) -> Seq<Line> {
    replay(ticks).lines + replay(ticks).state.finish(symbol).lines
}

/// Every line that a symbol puts out is true of its trades: a minute line
/// shows the bar of exactly the trades of that minute, and an hour line the
/// sums of exactly the trades of that hour and the area under the price in
/// force during the whole hour, whether it was set in that hour or earlier on
/// the same date.
pub proof fn law_lines_tell_their_trades(symbol: Seq<char>, ticks: Seq<Tick>)
    requires
        in_order(ticks),
        all_of(ticks, symbol),
    ensures
        forall|i: int|
            0 <= i < whole_output(symbol, ticks).len() ==> line_holds(
                symbol,
                ticks,
                #[trigger] whole_output(symbol, ticks)[i],
            ),
{
    lemma_caught_up(symbol, ticks);
    let done = replay(ticks);
    let rest = done.state.finish(symbol).lines;
    if ticks.len() > 0 {
        lemma_closed_hour_holds(symbol, ticks, done);
        assert(rest =~= seq![
            Line::Minute {
                symbol,
                bar: done.state.minute->0,
                rsi14: done.state.rsi.step(done.state.minute->0.close),
            },
            Line::Hour { symbol, hour: done.state.hour->0.closed() },
        ]);
    }
    let all = whole_output(symbol, ticks);
    assert forall|i: int| 0 <= i < all.len() implies line_holds(
        symbol,
        ticks,
        #[trigger] all[i],
    ) by {
        if i < done.lines.len() {
            assert(all[i] == done.lines[i]);
        } else {
            assert(all[i] == rest[i - done.lines.len()]);
        }
    }
}

/// The line is about an earlier minute, or an earlier hour, than the other
/// line, where both are about minutes or both about hours.
pub open spec fn earlier(a: Line, b: Line) -> bool {
    match (a, b) {
        (Line::Minute { bar: x, .. }, Line::Minute { bar: y, .. }) => x.date_key < y.date_key || (
        x.date_key == y.date_key && x.start_ms < y.start_ms),
        (Line::Hour { hour: x, .. }, Line::Hour { hour: y, .. }) => x.date_key < y.date_key || (
        x.date_key == y.date_key && x.start_ms < y.start_ms),
        _ => true,
    }
}

/// Minutes follow minutes, and hours follow hours, in the order of time.
pub open spec fn lines_ascend(lines: Seq<Line>) -> bool {
    forall|i: int, j: int|
        0 <= i < j < lines.len() ==> earlier(#[trigger] lines[i], #[trigger] lines[j])
}

/// The line is about the minute of the trade.
pub open spec fn shows_minute(line: Line, tick: Tick) -> bool {
    line matches Line::Minute { bar, .. } && bar.covers(tick)
}

/// The line is about the hour of the trade.
pub open spec fn shows_hour(line: Line, tick: Tick) -> bool {
    line matches Line::Hour { hour, .. } && hour.date_key == tick.date_key && hour.start_ms
        == hour_of(tick.ts_ms)
}

/// There is a line about the minute of the trade, and one about its hour.
pub open spec fn shown(lines: Seq<Line>, tick: Tick) -> bool {
    &&& exists|i: int| 0 <= i < lines.len() && shows_minute(#[trigger] lines[i], tick)
    &&& exists|i: int| 0 <= i < lines.len() && shows_hour(#[trigger] lines[i], tick)
}

/// What the end of the input puts out after trades.
pub proof fn lemma_finish_lines(symbol: Seq<char>, ticks: Seq<Tick>, done: Move)
    requires
        ticks.len() > 0,
        caught_up(symbol, ticks, done),
    ensures
        ({
            let rest = done.state.finish(symbol).lines;
            &&& rest.len() == 2
            &&& rest[0] is Minute
            &&& rest[1] is Hour
            &&& shows_minute(rest[0], ticks.last())
            &&& shows_hour(rest[1], ticks.last())
        }),
{
    lemma_closed_hour_holds(symbol, ticks, done);
}

/// Once lines ascend and are about something over, they still ascend with the
/// lines about what is current.
proof fn lemma_ascend_concat(lines: Seq<Line>, rest: Seq<Line>, tick: Tick)
    requires
        lines_ascend(lines),
        lines_ascend(rest),
        forall|i: int| 0 <= i < lines.len() ==> is_past(#[trigger] lines[i], tick),
        forall|i: int|
            0 <= i < rest.len() ==> shows_minute(#[trigger] rest[i], tick) || shows_hour(
                rest[i],
                tick,
            ),
    ensures
        lines_ascend(lines + rest),
{
    let all = lines + rest;
    assert forall|i: int, j: int| 0 <= i < j < all.len() implies earlier(
        #[trigger] all[i],
        #[trigger] all[j],
    ) by {
        if j < lines.len() {
            assert(all[i] == lines[i] && all[j] == lines[j]);
        } else if i >= lines.len() {
            assert(all[i] == rest[i - lines.len()] && all[j] == rest[j - lines.len()]);
        } else {
            assert(all[i] == lines[i] && all[j] == rest[j - lines.len()]);
        }
    }
}

/// The lines that a trade brings out are about what was current before it:
/// none, or at most one minute and at most one hour.
pub proof fn lemma_new_lines_current(symbol: Seq<char>, ticks: Seq<Tick>, tick: Tick, done: Move)
    requires
        ticks.len() > 0,
        caught_up(symbol, ticks, done),
        not_after(ticks.last(), tick),
        tick.symbol == symbol,
    ensures
        ({
            let new = done.state.record(tick).lines;
            &&& lines_ascend(new)
            &&& forall|i: int|
                0 <= i < new.len() ==> shows_minute(#[trigger] new[i], ticks.last()) || shows_hour(
                    new[i],
                    ticks.last(),
                )
            &&& !done.state.minute->0.covers(tick) ==> exists|i: int|
                0 <= i < new.len() && shows_minute(#[trigger] new[i], ticks.last())
            &&& done.state.hour->0.is_before(tick) ==> exists|i: int|
                0 <= i < new.len() && shows_hour(#[trigger] new[i], ticks.last())
            &&& ticks.last().date_key != tick.date_key ==> new.len() == 2 && new[0] is Minute
                && new[1] is Hour
            &&& ticks.last().date_key == tick.date_key && hour_of(ticks.last().ts_ms) != hour_of(
                tick.ts_ms,
            ) ==> new.len() == 2 && new[0] is Hour && new[1] is Minute
            &&& ticks.last().date_key == tick.date_key && hour_of(ticks.last().ts_ms) == hour_of(
                tick.ts_ms,
            ) && minute_of(ticks.last().ts_ms) != minute_of(tick.ts_ms) ==> new.len() == 1
                && new[0] is Minute
            &&& ticks.last().date_key == tick.date_key && minute_of(ticks.last().ts_ms)
                == minute_of(tick.ts_ms) ==> new.len() == 0
        }),
{
    lemma_closed_hour_holds(symbol, ticks, done);
    let last = ticks.last();
    let bar = done.state.minute->0;
    let hour = done.state.hour->0;
    let new = done.state.record(tick).lines;
    if last.date_key == tick.date_key {
        lemma_minutes_ascend(last.ts_ms, tick.ts_ms);
        lemma_hours_ascend(last.ts_ms, tick.ts_ms);
    }
    assert(bar.is_before(tick) || bar.covers(tick));
    let minute_line = Line::Minute { symbol, bar, rsi14: done.state.rsi.step(bar.close) };
    let hour_line = Line::Hour { symbol, hour: hour.closed() };
    if last.date_key != tick.date_key {
        assert(new =~= seq![minute_line, hour_line]);
        assert(shows_minute(new[0], last) && shows_hour(new[1], last));
    } else if hour.is_before(tick) {
        assert(bar.is_before(tick));
        assert(new =~= seq![hour_line, minute_line]);
        assert(shows_minute(new[1], last) && shows_hour(new[0], last));
    } else if bar.is_before(tick) {
        assert(new =~= seq![minute_line]);
        assert(shows_minute(new[0], last));
    } else {
        assert(new =~= Seq::<Line>::empty());
    }
}

/// What holds of the lines put out so far: they ascend, and every trade is
/// either of the current minute or shown by a minute line, and either of the
/// current hour or shown by an hour line.
pub open spec fn complete(ticks: Seq<Tick>, done: Move) -> bool {
    &&& lines_ascend(done.lines)
    &&& forall|k: int|
        0 <= k < ticks.len() ==> shown_or_current(done, #[trigger] ticks[k], ticks.last())
}

/// The trade is of the minute and the hour of the last one, or shown.
pub open spec fn shown_or_current(done: Move, tick: Tick, last: Tick) -> bool {
    &&& (tick.date_key == last.date_key && minute_of(tick.ts_ms) == minute_of(last.ts_ms))
        || exists|i: int| 0 <= i < done.lines.len() && shows_minute(#[trigger] done.lines[i], tick)
    &&& (tick.date_key == last.date_key && hour_of(tick.ts_ms) == hour_of(last.ts_ms))
        || exists|i: int| 0 <= i < done.lines.len() && shows_hour(#[trigger] done.lines[i], tick)
}

proof fn lemma_complete(symbol: Seq<char>, ticks: Seq<Tick>)
    requires
        in_order(ticks),
        all_of(ticks, symbol),
    ensures
        complete(ticks, replay(ticks)),
    decreases ticks.len(),
{
    if ticks.len() > 0 {
        let init = ticks.drop_last();
        let tick = ticks.last();
        let done0 = replay(init);
        let done = replay(ticks);
        let new = done0.state.record(tick).lines;
        assert(forall|i: int| 0 <= i < init.len() ==> init[i] == ticks[i]);
        assert(in_order(init));
        assert(all_of(init, symbol));
        lemma_complete(symbol, init);
        lemma_caught_up(symbol, init);
        if init.len() > 0 {
            let prev = init.last();
            assert(prev == ticks[ticks.len() - 2] && tick == ticks[ticks.len() - 1]);
            assert(not_after(prev, tick));
            assert(tick.symbol == symbol);
            lemma_new_lines_current(symbol, init, tick, done0);
            lemma_ascend_concat(done0.lines, new, prev);
            assert forall|k: int| 0 <= k < ticks.len() implies shown_or_current(
                done,
                #[trigger] ticks[k],
                tick,
            ) by {
                if k < init.len() {
                    assert(init[k] == ticks[k]);
                    lemma_shown_carries(done0, done, new, ticks[k], prev, tick);
                }
            }
        } else {
            assert(done.lines =~= Seq::<Line>::empty());
        }
    } else {
        assert(replay(ticks).lines =~= Seq::<Line>::empty());
    }
}

/// What was shown stays shown, and what was current is shown once it is over.
proof fn lemma_shown_carries(
    done0: Move,
    done: Move,
    new: Seq<Line>,
    tick: Tick,
    prev: Tick,
    last: Tick,
)
    requires
        done.lines == done0.lines + new,
        shown_or_current(done0, tick, prev),
        not_after(prev, last),
        prev.date_key != last.date_key || minute_of(prev.ts_ms) != minute_of(last.ts_ms)
            ==> exists|i: int| 0 <= i < new.len() && shows_minute(#[trigger] new[i], prev),
        prev.date_key != last.date_key || hour_of(prev.ts_ms) != hour_of(last.ts_ms) ==> exists|
            i: int,
        |
            0 <= i < new.len() && shows_hour(#[trigger] new[i], prev),
    ensures
        shown_or_current(done, tick, last),
{
    let all = done.lines;
    if exists|i: int| 0 <= i < done0.lines.len() && shows_minute(#[trigger] done0.lines[i], tick) {
        let i = choose|i: int|
            0 <= i < done0.lines.len() && shows_minute(#[trigger] done0.lines[i], tick);
        assert(shows_minute(all[i], tick));
    } else if prev.date_key != last.date_key || minute_of(prev.ts_ms) != minute_of(last.ts_ms) {
        let i = choose|i: int| 0 <= i < new.len() && shows_minute(#[trigger] new[i], prev);
        assert(all[done0.lines.len() + i] == new[i]);
        assert(shows_minute(all[done0.lines.len() + i], tick));
    }
    if exists|i: int| 0 <= i < done0.lines.len() && shows_hour(#[trigger] done0.lines[i], tick) {
        let i = choose|i: int|
            0 <= i < done0.lines.len() && shows_hour(#[trigger] done0.lines[i], tick);
        assert(shows_hour(all[i], tick));
    } else if prev.date_key != last.date_key || hour_of(prev.ts_ms) != hour_of(last.ts_ms) {
        let i = choose|i: int| 0 <= i < new.len() && shows_hour(#[trigger] new[i], prev);
        assert(all[done0.lines.len() + i] == new[i]);
        assert(shows_hour(all[done0.lines.len() + i], tick));
    }
}

/// Every trade shows up on one minute line and on one hour line, and on no other.
/// Minute lines follow each other in time, and so do hour lines.
pub proof fn law_every_trade_is_shown_once(symbol: Seq<char>, ticks: Seq<Tick>)
    requires
        in_order(ticks),
        all_of(ticks, symbol),
    ensures
        lines_ascend(whole_output(symbol, ticks)),
        forall|k: int|
            0 <= k < ticks.len() ==> shown(whole_output(symbol, ticks), #[trigger] ticks[k]),
        forall|k: int, i: int, j: int|
            #![trigger ticks[k], whole_output(symbol, ticks)[i], whole_output(symbol, ticks)[j]]
            0 <= k < ticks.len() && 0 <= i < j < whole_output(symbol, ticks).len() ==> {
                let all = whole_output(symbol, ticks);
                &&& !(shows_minute(all[i], ticks[k]) && shows_minute(all[j], ticks[k]))
                &&& !(shows_hour(all[i], ticks[k]) && shows_hour(all[j], ticks[k]))
            },
{
    let done = replay(ticks);
    let rest = done.state.finish(symbol).lines;
    let all = whole_output(symbol, ticks);
    lemma_complete(symbol, ticks);
    lemma_caught_up(symbol, ticks);
    if ticks.len() > 0 {
        let last = ticks.last();
        lemma_finish_lines(symbol, ticks, done);
        lemma_ascend_concat(done.lines, rest, last);
        let n = done.lines.len() as int;
        assert(all[n] == rest[0] && all[n + 1] == rest[1]);
        assert forall|k: int| 0 <= k < ticks.len() implies shown(all, #[trigger] ticks[k]) by {
            let tick = ticks[k];
            assert(shown_or_current(done, tick, last));
            if exists|i: int|
                0 <= i < done.lines.len() && shows_minute(#[trigger] done.lines[i], tick) {
                let i = choose|i: int|
                    0 <= i < done.lines.len() && shows_minute(#[trigger] done.lines[i], tick);
                assert(shows_minute(all[i], tick));
            } else {
                assert(shows_minute(all[n], tick));
            }
            if exists|i: int|
                0 <= i < done.lines.len() && shows_hour(#[trigger] done.lines[i], tick) {
                let i = choose|i: int|
                    0 <= i < done.lines.len() && shows_hour(#[trigger] done.lines[i], tick);
                assert(shows_hour(all[i], tick));
            } else {
                assert(shows_hour(all[n + 1], tick));
            }
        }
    } else {
        assert(all =~= Seq::<Line>::empty());
    }
}

/// The bar of a series of trades opens with the first price, closes with the
/// last, spans from the lowest to the highest, and has the sum of the volumes.
pub proof fn law_bar_spans_its_trades(ticks: Seq<Tick>)
    requires
        ticks.len() > 0,
    ensures
        bar_of(ticks).date_key == ticks.first().date_key,
        bar_of(ticks).start_ms == minute_of(ticks.first().ts_ms),
        bar_of(ticks).open == ticks.first().price,
        bar_of(ticks).close == ticks.last().price,
        forall|i: int|
            0 <= i < ticks.len() ==> bar_of(ticks).low <= (#[trigger] ticks[i]).price <= bar_of(
                ticks,
            ).high,
        exists|i: int| 0 <= i < ticks.len() && (#[trigger] ticks[i]).price == bar_of(ticks).low,
        exists|i: int| 0 <= i < ticks.len() && (#[trigger] ticks[i]).price == bar_of(ticks).high,
        bar_of(ticks).volume == volume_sum(ticks),
    decreases ticks.len(),
{
    reveal_with_fuel(volume_sum, 2);
    let init = ticks.drop_last();
    let n = ticks.len() - 1;
    if ticks.len() > 1 {
        law_bar_spans_its_trades(init);
        let bar = bar_of(init);
        assert forall|i: int| 0 <= i < ticks.len() implies bar_of(ticks).low <= (
        #[trigger] ticks[i]).price <= bar_of(ticks).high by {
            if i < n {
                assert(init[i] == ticks[i]);
            }
        }
        let low = choose|i: int| 0 <= i < init.len() && (#[trigger] init[i]).price == bar.low;
        let high = choose|i: int| 0 <= i < init.len() && (#[trigger] init[i]).price == bar.high;
        assert(ticks[low].price == bar.low && ticks[high].price == bar.high);
        assert(ticks[n] == ticks.last());
    } else {
        assert(ticks[0] == ticks.last());
    }
}

} // verus!
