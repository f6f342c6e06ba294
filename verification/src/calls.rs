//! What lines give that are handed over one by one, whatever numbers they bear
//! and whether or not some of them are refused.
use vstd::prelude::*;

use crate::agg::{last_lines, AggState};
use crate::history::{
    all_of, earlier, in_hour, in_minute, in_order, law_every_trade_is_shown_once,
    law_lines_tell_their_trades, lines_ascend, shown, shows_hour, shows_minute, whole_output,
};
use crate::hour::hour_of;
use crate::minute::minute_of;
use crate::parse::{read_line, Tick};
use crate::record::{symbol_of, Line};
use crate::table::{state_of, Entry};
use crate::whole::{
    adds_up, all_added, in_step, is_about, lemma_end_adds_up, lemma_end_in_step,
    lemma_finish_only_about, lemma_record_only_about, lemma_tick_adds_up, lemma_tick_in_step,
    lemma_ticks_of_all, lines_of, only_about, ticks_in, ticks_of,
};

verus! {

/// A line as it is handed over, with the number it bears.
pub struct Call {
    pub line: Seq<u8>,
    pub line_num: nat,
}

/// What handing over lines has come to.
pub struct Handed {
    pub agg: AggState,
    pub lines: Seq<Line>,
    /// The trades that were taken.
    pub ticks: Seq<Tick>,
    /// No line was refused.
    pub all_ok: bool,
}

/// What a fresh aggregation does with lines that are handed over one by one. A
/// refused line does not keep the next one from being handed over.
pub open spec fn handed(calls: Seq<Call>) -> Handed
    decreases calls.len(),
{
    if calls.len() == 0 {
        Handed {
            agg: AggState::fresh(),
            lines: Seq::empty(),
            ticks: Seq::empty(),
            all_ok: true,
        }
    } else {
        let init = handed(calls.drop_last());
        let last = init.agg.on_line(calls.last().line, calls.last().line_num);
        Handed {
            agg: last.agg,
            lines: init.lines + last.lines,
            ticks: match read_line(calls.last().line) {
                Ok(Some(tick)) if last.fault is None => init.ticks.push(tick),
                _ => init.ticks,
            },
            all_ok: init.all_ok && last.fault is None,
        }
    }
}

/// The lines by themselves.
pub open spec fn rows_in(calls: Seq<Call>) -> Seq<Seq<u8>> {
    Seq::new(calls.len(), |i: int| calls[i].line)
}

/// All that was put out when the lines have been handed over and the input ended.
pub open spec fn all_lines(calls: Seq<Call>) -> Seq<Line> {
    handed(calls).lines + handed(calls).agg.at_end()
}

/// Every line is about a symbol.
pub open spec fn all_named(lines: Seq<Line>) -> bool {
    forall|i: int| 0 <= i < lines.len() ==> symbol_of(#[trigger] lines[i]) is Some
}

/// Handing over lines keeps the sums and every symbol in step.
pub proof fn lemma_handed(calls: Seq<Call>, symbol: Seq<char>)
    ensures
        ({
            let done = handed(calls);
            &&& adds_up(done.agg, done.lines, done.ticks)
            &&& in_step(done.agg, done.lines, done.ticks, symbol)
            &&& all_named(done.lines)
        }),
    decreases calls.len(),
{
    reveal(Seq::filter);
    if calls.len() > 0 {
        let init = handed(calls.drop_last());
        lemma_handed(calls.drop_last(), symbol);
        assert(init.lines + Seq::<Line>::empty() =~= init.lines);
        if let Ok(Some(tick)) = read_line(calls.last().line) {
            if init.agg.order_fault(tick) is None {
                let new = init.agg.on_tick(tick).lines;
                lemma_tick_in_step(init.agg, init.lines, init.ticks, tick, symbol);
                lemma_tick_adds_up(init.agg, init.lines, init.ticks, tick);
                lemma_record_only_about(state_of(init.agg.entries, tick.symbol), tick);
                lemma_named_concat(init.lines, new, tick.symbol);
            }
        }
    } else {
        assert(ticks_of(handed(calls).ticks, symbol) =~= Seq::<Tick>::empty());
        assert(lines_of(handed(calls).lines, symbol) =~= Seq::<Line>::empty());
    }
}

/// Lines about one symbol are about a symbol.
proof fn lemma_named_concat(a: Seq<Line>, b: Seq<Line>, symbol: Seq<char>)
    requires
        all_named(a),
        only_about(b, symbol),
    ensures
        all_named(a + b),
{
    let all = a + b;
    assert forall|i: int| 0 <= i < all.len() implies symbol_of(#[trigger] all[i]) is Some by {
        if i < a.len() {
            assert(all[i] == a[i]);
        } else {
            assert(all[i] == b[i - a.len()]);
            assert(is_about(b[i - a.len()], symbol));
        }
    }
}

/// So are the lines that the symbols put out at the end.
proof fn lemma_last_named(a: Seq<Line>, entries: Seq<Entry>)
    requires
        all_named(a),
    ensures
        all_named(a + last_lines(entries)),
    decreases entries.len(),
{
    if entries.len() > 0 {
        let init = entries.drop_last();
        let last = entries.last();
        let new = last.state.finish(last.symbol).lines;
        lemma_last_named(a, init);
        lemma_finish_only_about(last.state, last.symbol);
        lemma_named_concat(a + last_lines(init), new, last.symbol);
        assert(a + last_lines(entries) =~= a + last_lines(init) + new);
    } else {
        assert(a + last_lines(entries) =~= a);
    }
}

/// What is selected comes from the whole.
proof fn lemma_selected_from<A>(s: Seq<A>, pred: spec_fn(A) -> bool, n: int)
    requires
        0 <= n < s.filter(pred).len(),
    ensures
        pred(s.filter(pred)[n]),
        exists|i: int| 0 <= i < s.len() && #[trigger] s[i] == s.filter(pred)[n],
    decreases s.len(),
{
    reveal(Seq::filter);
    if s.len() > 0 {
        let init = s.drop_last();
        if n < init.filter(pred).len() {
            lemma_selected_from(init, pred, n);
            let i = choose|i: int| 0 <= i < init.len() && #[trigger] init[i] == init.filter(
                pred,
            )[n];
            assert(s[i] == init[i]);
        } else {
            assert(s[s.len() - 1] == s.filter(pred)[n]);
        }
    }
}

/// Lines about a symbol that ascend among themselves ascend in the whole.
proof fn lemma_ascend_in_whole(lines: Seq<Line>, symbol: Seq<char>, i: int, j: int)
    requires
        lines_ascend(lines_of(lines, symbol)),
        0 <= i < j < lines.len(),
        is_about(lines[i], symbol),
        is_about(lines[j], symbol),
    ensures
        earlier(lines[i], lines[j]),
    decreases lines.len(),
{
    reveal(Seq::filter);
    let pred = |l: Line| is_about(l, symbol);
    let init = lines.drop_last();
    let own = lines_of(lines, symbol);
    let own0 = lines_of(init, symbol);
    if j < lines.len() - 1 {
        assert forall|a: int, b: int| 0 <= a < b < own0.len() implies earlier(
            #[trigger] own0[a],
            #[trigger] own0[b],
        ) by {
            assert(own[a] == own0[a] && own[b] == own0[b]);
        }
        lemma_ascend_in_whole(init, symbol, i, j);
    } else {
        init.lemma_filter_contains(pred, i);
        assert(own0.contains(init[i]));
        let a = choose|a: int| 0 <= a < own0.len() && own0[a] == init[i];
        assert(own == own0.push(lines.last()));
        assert(own[a] == lines[i]);
        assert(earlier(own[a], own[own.len() - 1]));
    }
}

/// The line is about the minute of the trade, and about its symbol.
pub open spec fn is_minute_of(line: Line, tick: Tick) -> bool {
    is_about(line, tick.symbol) && shows_minute(line, tick)
}

/// The line is about the hour of the trade, and about its symbol.
pub open spec fn is_hour_of(line: Line, tick: Tick) -> bool {
    is_about(line, tick.symbol) && shows_hour(line, tick)
}

/// For each trade there is a line about its minute and one about its hour.
pub open spec fn all_shown(out: Seq<Line>, ticks: Seq<Tick>) -> bool {
    forall|k: int| 0 <= k < ticks.len() ==> has_lines(out, #[trigger] ticks[k])
}

/// There is a line about the minute of the trade and one about its hour.
pub open spec fn has_lines(out: Seq<Line>, tick: Tick) -> bool {
    &&& exists|i: int| 0 <= i < out.len() && is_minute_of(#[trigger] out[i], tick)
    &&& exists|i: int| 0 <= i < out.len() && is_hour_of(#[trigger] out[i], tick)
}

/// No two lines are about the same minute, or the same hour, of a trade.
pub open spec fn shown_once(out: Seq<Line>, ticks: Seq<Tick>) -> bool {
    forall|k: int, i: int, j: int|
        #![trigger ticks[k], out[i], out[j]]
        0 <= k < ticks.len() && 0 <= i < j < out.len() ==> {
            &&& !(is_minute_of(out[i], ticks[k]) && is_minute_of(out[j], ticks[k]))
            &&& !(is_hour_of(out[i], ticks[k]) && is_hour_of(out[j], ticks[k]))
        }
}

/// Every line but the last is about the minute or the hour of a trade.
pub open spec fn none_other(out: Seq<Line>, ticks: Seq<Tick>) -> bool {
    forall|i: int| 0 <= i < out.len() - 1 ==> has_trade(#[trigger] out[i], ticks)
}

/// The line is about the minute or the hour of one of the trades.
pub open spec fn has_trade(line: Line, ticks: Seq<Tick>) -> bool {
    exists|k: int|
        0 <= k < ticks.len() && (is_minute_of(line, #[trigger] ticks[k]) || is_hour_of(
            line,
            ticks[k],
        ))
}

/// For each symbol minute lines follow minute lines, and hour lines follow hour
/// lines, in the order of time.
pub open spec fn rising(out: Seq<Line>) -> bool {
    forall|i: int, j: int|
        0 <= i < j < out.len() && symbol_of(#[trigger] out[i]) is Some && symbol_of(out[i])
            == symbol_of(#[trigger] out[j]) ==> earlier(out[i], out[j])
}

/// What the lines about one symbol are.
proof fn lemma_own(calls: Seq<Call>, symbol: Seq<char>)
    ensures
        ({
            let own = ticks_of(handed(calls).ticks, symbol);
            &&& in_order(own)
            &&& all_of(own, symbol)
            &&& lines_of(all_lines(calls), symbol) == whole_output(symbol, own)
            &&& all_added(all_lines(calls), handed(calls).ticks)
        }),
{
    let done = handed(calls);
    lemma_handed(calls, symbol);
    lemma_ticks_of_all(done.ticks, symbol);
    lemma_end_in_step(done.agg, done.lines, done.ticks, symbol);
    lemma_end_adds_up(done.agg, done.lines, done.ticks);
}

/// The lines of each symbol rise.
proof fn lemma_rising(calls: Seq<Call>)
    ensures
        rising(all_lines(calls)),
{
    let out = all_lines(calls);
    assert forall|i: int, j: int|
        0 <= i < j < out.len() && symbol_of(#[trigger] out[i]) is Some && symbol_of(out[i])
            == symbol_of(#[trigger] out[j]) implies earlier(out[i], out[j]) by {
        let symbol = symbol_of(out[i])->0;
        lemma_own(calls, symbol);
        law_every_trade_is_shown_once(symbol, ticks_of(handed(calls).ticks, symbol));
        lemma_ascend_in_whole(out, symbol, i, j);
    }
}

/// A trade that was taken has its lines.
proof fn lemma_has_lines(calls: Seq<Call>, k: int)
    requires
        0 <= k < handed(calls).ticks.len(),
    ensures
        has_lines(all_lines(calls), handed(calls).ticks[k]),
{
    let out = all_lines(calls);
    let ticks = handed(calls).ticks;
    let tick = ticks[k];
    let symbol = tick.symbol;
    let own = ticks_of(ticks, symbol);
    let mine = lines_of(out, symbol);
    let pred = |l: Line| is_about(l, symbol);
    lemma_own(calls, symbol);
    law_every_trade_is_shown_once(symbol, own);
    ticks.lemma_filter_contains(|t: Tick| t.symbol == symbol, k);
    assert(own.contains(tick));
    let m = choose|m: int| 0 <= m < own.len() && own[m] == tick;
    assert(shown(mine, own[m]));
    let a = choose|a: int| 0 <= a < mine.len() && shows_minute(#[trigger] mine[a], tick);
    lemma_selected_from(out, pred, a);
    let i = choose|i: int| 0 <= i < out.len() && #[trigger] out[i] == mine[a];
    assert(is_minute_of(out[i], tick));
    let b = choose|b: int| 0 <= b < mine.len() && shows_hour(#[trigger] mine[b], tick);
    lemma_selected_from(out, pred, b);
    let j = choose|j: int| 0 <= j < out.len() && #[trigger] out[j] == mine[b];
    assert(is_hour_of(out[j], tick));
}

/// A line about a symbol has a trade.
proof fn lemma_has_trade(calls: Seq<Call>, i: int, symbol: Seq<char>)
    requires
        0 <= i < all_lines(calls).len(),
        is_about(all_lines(calls)[i], symbol),
    ensures
        has_trade(all_lines(calls)[i], handed(calls).ticks),
{
    let out = all_lines(calls);
    let ticks = handed(calls).ticks;
    let own = ticks_of(ticks, symbol);
    let mine = lines_of(out, symbol);
    lemma_own(calls, symbol);
    law_lines_tell_their_trades(symbol, own);
    out.lemma_filter_contains(|l: Line| is_about(l, symbol), i);
    assert(mine.contains(out[i]));
    let a = choose|a: int| 0 <= a < mine.len() && mine[a] == out[i];
    assert(whole_output(symbol, own)[a] == out[i]);
    match out[i] {
        Line::Minute { bar, .. } => {
            let (date_key, start_ms) = (bar.date_key, bar.start_ms);
            let of_minute = |t: Tick| t.date_key == date_key && minute_of(t.ts_ms) == start_ms;
            assert(in_minute(own, date_key, start_ms).len() > 0);
            lemma_selected_from(own, of_minute, 0);
            let tick = own.filter(of_minute)[0];
            let m = choose|m: int| 0 <= m < own.len() && #[trigger] own[m] == tick;
            lemma_selected_from(ticks, |t: Tick| t.symbol == symbol, m);
            let k = choose|k: int| 0 <= k < ticks.len() && #[trigger] ticks[k] == own[m];
            assert(is_minute_of(out[i], ticks[k]));
        },
        Line::Hour { hour, .. } => {
            let (date_key, start_ms) = (hour.date_key, hour.start_ms);
            let of_hour = |t: Tick| t.date_key == date_key && hour_of(t.ts_ms) == start_ms;
            assert(in_hour(own, date_key, start_ms).len() > 0);
            lemma_selected_from(own, of_hour, 0);
            let tick = own.filter(of_hour)[0];
            let m = choose|m: int| 0 <= m < own.len() && #[trigger] own[m] == tick;
            lemma_selected_from(ticks, |t: Tick| t.symbol == symbol, m);
            let k = choose|k: int| 0 <= k < ticks.len() && #[trigger] ticks[k] == own[m];
            assert(is_hour_of(out[i], ticks[k]));
        },
        Line::Summary { .. } => {},
    }
}

/// Where no line is refused, the trades taken are all those on the lines.
proof fn lemma_all_taken(calls: Seq<Call>)
    ensures
        handed(calls).all_ok ==> handed(calls).ticks == ticks_in(rows_in(calls)),
    decreases calls.len(),
{
    if calls.len() > 0 {
        lemma_all_taken(calls.drop_last());
        assert(rows_in(calls).drop_last() =~= rows_in(calls.drop_last()));
    }
}

/// Lines may be handed over one by one, with any numbers, and some of them may
/// be refused. Once the input is ended, there is exactly one minute line for
/// each minute, and one hour line for each hour, of a symbol in which a trade
/// was taken, and but for the totals, which come last, there is no other line.
/// The minute lines of a symbol follow each other in time, and so do its hour
/// lines. The totals are those of the trades that were taken, and what the
/// minute lines and the hour lines add up to. Where no line is refused, these
/// are all the trades on the lines.
pub proof fn law_lines_handed_over(calls: Seq<Call>)
    ensures
        ({
            let out = all_lines(calls);
            let ticks = handed(calls).ticks;
            &&& all_shown(out, ticks)
            &&& shown_once(out, ticks)
            &&& none_other(out, ticks)
            &&& rising(out)
            &&& all_added(out, ticks)
            &&& handed(calls).all_ok ==> ticks == ticks_in(rows_in(calls))
        }),
{
    let out = all_lines(calls);
    let done = handed(calls);
    let ticks = done.ticks;
    lemma_own(calls, Seq::empty());
    lemma_handed(calls, Seq::empty());
    lemma_all_taken(calls);
    lemma_rising(calls);
    assert forall|k: int| 0 <= k < ticks.len() implies has_lines(out, #[trigger] ticks[k]) by {
        lemma_has_lines(calls, k);
    }
    lemma_last_named(done.lines, done.agg.entries);
    assert forall|i: int| 0 <= i < out.len() - 1 implies has_trade(#[trigger] out[i], ticks) by {
        let named = done.lines + last_lines(done.agg.entries);
        assert(out[i] == named[i]);
        assert(symbol_of(named[i]) is Some);
        lemma_has_trade(calls, i, symbol_of(out[i])->0);
    }
}

/// What the lines put out about a symbol depends on the trades of that symbol
/// that were taken alone, which come in order: it is what they give by
/// themselves.
pub proof fn law_handed_over_by_symbol(calls: Seq<Call>, symbol: Seq<char>)
    ensures
        ({
            let own = ticks_of(handed(calls).ticks, symbol);
            &&& in_order(own)
            &&& all_of(own, symbol)
            &&& lines_of(all_lines(calls), symbol) == whole_output(symbol, own)
        }),
{
    lemma_own(calls, symbol);
}

} // verus!
