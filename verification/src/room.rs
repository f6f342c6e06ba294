//! When the aggregation stops, and why, told from the lines before.
use vstd::prelude::*;

use crate::agg::{lemma_on_tick_steady, lemma_state_steady, AggState};
use crate::calls::{handed, lemma_handed, Call};
use crate::clock::MSEC_PER_DAY;
use crate::error::Fault;
use crate::history::{
    all_of, in_hour, in_order, lemma_caught_up, lemma_selection_starts, lemma_selections_push,
    lemma_sums_push, not_after, replay,
};
use crate::hour::{hour_of, law_hour_holds_its_moments, lemma_product_fits};
use crate::parse::{read_line, without_cr, ParseError, Tick, COMMA};
use crate::record::Line;
use crate::split::pieces;
use crate::steady::lemma_can_record;
use crate::stream::{law_numbers_have_no_say, lemma_run_taken, on_row, run, Halt};
use crate::table::state_of;
use crate::times::{between, lemma_hour_between};
use crate::weighing::{value_sum, volume_sum};
use crate::whole::{
    adds_up, goes_through, in_step, law_input_is_its_rows, lemma_order_extends, lemma_run,
    lemma_ticks_of_all, lemma_ticks_of_push, rows_of, ticks_in, ticks_of,
};
use crate::wording::law_timestamp_writes_back;

verus! {

/// Why a line is refused that comes after these trades, if it is: it cannot be
/// read, or its trade is earlier than the last one of its symbol.
pub open spec fn refusal_due(ticks: Seq<Tick>, line: Seq<u8>, line_num: nat) -> Option<Fault> {
    match read_line(line) {
        Err(source) => Some(Fault::Parse { line_num, source }),
        Ok(None) => None,
        Ok(Some(tick)) => {
            let own = ticks_of(ticks, tick.symbol);
            if own.len() > 0 && tick.date_key < own.last().date_key {
                Some(
                    Fault::OutOfOrderDate {
                        symbol: tick.symbol,
                        got: tick.date_key,
                        current: own.last().date_key,
                    },
                )
            } else if own.len() > 0 && tick.date_key == own.last().date_key && tick.ts_ms
                < own.last().ts_ms {
                Some(
                    Fault::OutOfOrderTime {
                        symbol: tick.symbol,
                        date_key: tick.date_key,
                        got_ms: tick.ts_ms,
                        current_ms: own.last().ts_ms,
                    },
                )
            } else {
                None
            }
        },
    }
}

/// The trades of the hour of the last of these trades, of its symbol.
pub open spec fn hour_of_last(ticks: Seq<Tick>) -> Seq<Tick> {
    let last = ticks.last();
    let start = last.ts_ms as int / 3_600_000 * 3_600_000;
    between(ticks_of(ticks, last.symbol), last.date_key, start, start + 3_600_000)
}

/// With the last trade, the sums of its hour and the totals are within the
/// numbers that hold them: 64 bits for a volume of an hour, 128 bits for the
/// others.
pub open spec fn last_fits(ticks: Seq<Tick>) -> bool {
    &&& volume_sum(hour_of_last(ticks)) <= 0xffff_ffff_ffff_ffff
    &&& value_sum(hour_of_last(ticks)) <= 0xffff_ffff_ffff_ffff_ffff_ffff_ffff_ffff
    &&& volume_sum(ticks) <= 0xffff_ffff_ffff_ffff_ffff_ffff_ffff_ffff
    &&& value_sum(ticks) <= 0xffff_ffff_ffff_ffff_ffff_ffff_ffff_ffff
}

/// Why a line stops it that comes after these trades, if it does.
#[verifier::opaque]
pub open spec fn halt_due(ticks: Seq<Tick>, line: Seq<u8>, line_num: nat) -> Option<Halt> {
    match refusal_due(ticks, line, line_num) {
        Some(fault) => Some(Halt::Refused(fault)),
        None => match read_line(line) {
            Ok(Some(tick)) if !last_fits(ticks.push(tick)) => Some(Halt::Overflow { line_num }),
            _ => None,
        },
    }
}

/// A time that was read is one of a day.
proof fn lemma_time_read(line: Seq<u8>)
    ensures
        read_line(line) matches Ok(Some(tick)) ==> tick.ts_ms < MSEC_PER_DAY,
{
    let columns = pieces(without_cr(line), COMMA);
    if let Ok(Some(tick)) = read_line(line) {
        law_timestamp_writes_back(columns[1]);
    }
}

/// A symbol that is in step refuses what comes too early.
proof fn lemma_refusal(
    agg: AggState,
    out: Seq<Line>,
    ticks: Seq<Tick>,
    tick: Tick,
    line: Seq<u8>,
    line_num: nat,
)
    requires
        in_step(agg, out, ticks, tick.symbol),
        read_line(line) == Ok::<Option<Tick>, ParseError>(Some(tick)),
    ensures
        agg.order_fault(tick) == refusal_due(ticks, line, line_num),
{
    lemma_ticks_of_all(ticks, tick.symbol);
    lemma_caught_up(tick.symbol, ticks_of(ticks, tick.symbol));
}

/// The sums of the hour of one more trade.
proof fn lemma_hour_fits(own: Seq<Tick>, tick: Tick)
    requires
        in_order(own.push(tick)),
        in_order(own),
        all_of(own, tick.symbol),
    ensures
        ({
            let state = replay(own).state;
            let hour = in_hour(own.push(tick), tick.date_key, hour_of(tick.ts_ms));
            state.sums_fit(tick) <==> volume_sum(hour) <= u64::MAX && value_sum(hour) <= u128::MAX
        }),
{
    let (date_key, start) = (tick.date_key, hour_of(tick.ts_ms));
    let before = in_hour(own, date_key, start);
    lemma_caught_up(tick.symbol, own);
    lemma_selections_push(own, tick, date_key, start);
    lemma_selection_starts(own, tick);
    lemma_sums_push(before, tick);
    lemma_product_fits(tick.price as nat, tick.volume as nat);
    if !replay(own).state.continues_hour(tick) {
        assert(before.len() == 0);
        assert(volume_sum(before) == 0 && value_sum(before) == 0);
    }
}

/// There is room for a trade if and only if the sums with it fit.
proof fn lemma_room(
    agg: AggState,
    out: Seq<Line>,
    ticks: Seq<Tick>,
    tick: Tick,
)
    requires
        agg.steady(),
        adds_up(agg, out, ticks),
        in_step(agg, out, ticks, tick.symbol),
        agg.order_fault(tick) is None,
        tick.ts_ms < MSEC_PER_DAY,
    ensures
        agg.has_room(tick) <==> last_fits(ticks.push(tick)),
{
    let own = ticks_of(ticks, tick.symbol);
    let state = state_of(agg.entries, tick.symbol);
    let all = ticks.push(tick);
    lemma_state_steady(agg, tick.symbol);
    lemma_can_record(state, tick);
    lemma_ticks_of_all(ticks, tick.symbol);
    lemma_order_extends(own, tick);
    lemma_ticks_of_push(ticks, tick, tick.symbol);
    lemma_hour_fits(own, tick);
    law_hour_holds_its_moments(tick.ts_ms);
    assert(tick.ts_ms as int / 3_600_000 * 3_600_000 == hour_of(tick.ts_ms));
    lemma_hour_between(own.push(tick), tick.date_key, hour_of(tick.ts_ms));
    assert(all.last() == tick);
    lemma_sums_push(ticks, tick);
}

/// What a line does that comes after these trades.
proof fn lemma_row(
    agg: AggState,
    out: Seq<Line>,
    ticks: Seq<Tick>,
    line: Seq<u8>,
    line_num: nat,
)
    requires
        agg.steady(),
        adds_up(agg, out, ticks),
        read_line(line) matches Ok(Some(tick)) ==> in_step(agg, out, ticks, tick.symbol),
    ensures
        on_row(agg, line, line_num).halt == halt_due(ticks, line, line_num),
        on_row(agg, line, line_num).agg.steady(),
{
    reveal(on_row);
    reveal(halt_due);
    lemma_time_read(line);
    if let Ok(Some(tick)) = read_line(line) {
        lemma_refusal(agg, out, ticks, tick, line, line_num);
        if agg.order_fault(tick) is None {
            lemma_room(agg, out, ticks, tick);
        }
        lemma_on_tick_steady(agg, tick);
    }
}

/// A line does not stop it that comes after the trades on those before it.
#[verifier::opaque]
pub open spec fn goes_on(rows: Seq<Seq<u8>>, k: int) -> bool {
    halt_due(ticks_in(rows.take(k)), rows[k], 0) is None
}

/// No line stops it.
pub open spec fn none_due(rows: Seq<Seq<u8>>) -> bool {
    forall|k: int| 0 <= k < rows.len() ==> #[trigger] goes_on(rows, k)
}

/// The numbers of lines only show in what is said of them.
proof fn lemma_due_number(ticks: Seq<Tick>, line: Seq<u8>, a: nat, b: nat)
    ensures
        halt_due(ticks, line, a) is None <==> halt_due(ticks, line, b) is None,
{
    reveal(halt_due);
}

/// What the symbol of the trade on a line, if there is one, is in step with.
proof fn lemma_run_before(rows: Seq<Seq<u8>>, line: Seq<u8>)
    requires
        run(AggState::fresh(), rows, 0).halt is None,
    ensures
        ({
            let done = run(AggState::fresh(), rows, 0);
            &&& adds_up(done.agg, done.lines, ticks_in(rows))
            &&& read_line(line) matches Ok(Some(tick)) ==> in_step(
                done.agg,
                done.lines,
                ticks_in(rows),
                tick.symbol,
            )
        }),
{
    lemma_run(rows, Seq::empty());
    if let Ok(Some(tick)) = read_line(line) {
        lemma_run(rows, tick.symbol);
    }
}

/// None of the lines stops it if none but the last does, nor the last.
proof fn lemma_none_due_step(rows: Seq<Seq<u8>>)
    requires
        rows.len() > 0,
    ensures
        none_due(rows) <==> none_due(rows.drop_last()) && halt_due(
            ticks_in(rows.drop_last()),
            rows.last(),
            0,
        ) is None,
{
    let init = rows.drop_last();
    let n = init.len() as int;
    lemma_goes_on_last(rows);
    assert forall|k: int| 0 <= k < n implies #[trigger] goes_on(rows, k) == goes_on(init, k) by {
        lemma_goes_on_init(rows, k);
    }
    if none_due(rows) {
        assert(goes_on(rows, n));
        assert forall|k: int| 0 <= k < n implies #[trigger] goes_on(init, k) by {
            assert(goes_on(rows, k));
        }
    }
}

proof fn lemma_goes_on_last(rows: Seq<Seq<u8>>)
    requires
        rows.len() > 0,
    ensures
        goes_on(rows, rows.len() - 1) <==> halt_due(
            ticks_in(rows.drop_last()),
            rows.last(),
            0,
        ) is None,
{
    reveal(goes_on);
    assert(rows.take(rows.len() - 1) =~= rows.drop_last());
}

proof fn lemma_goes_on_init(rows: Seq<Seq<u8>>, k: int)
    requires
        0 <= k < rows.len() - 1,
    ensures
        goes_on(rows, k) == goes_on(rows.drop_last(), k),
{
    reveal(goes_on);
    assert(rows.take(k) =~= rows.drop_last().take(k));
}

/// Where it stops, with the lines counted from one.
proof fn lemma_stops(rows: Seq<Seq<u8>>)
    ensures
        ({
            let done = run(AggState::fresh(), rows, 0);
            let k = done.taken - 1;
            &&& done.halt is None <==> none_due(rows)
            &&& done.halt is None ==> done.agg.steady()
            &&& done.halt is Some ==> {
                &&& 0 <= k < rows.len()
                &&& none_due(rows.take(k))
                &&& done.halt == halt_due(ticks_in(rows.take(k)), rows[k], (k + 1) as nat)
            }
        }),
    decreases rows.len(),
{
    if rows.len() > 0 {
        let init = rows.drop_last();
        let n = init.len() as int;
        let before = run(AggState::fresh(), init, 0);
        lemma_stops(init);
        lemma_run_taken(AggState::fresh(), init, 0);
        assert(rows.take(n) =~= init);
        assert(rows[n] == rows.last());
        lemma_none_due_step(rows);
        if before.halt is None {
            lemma_run_before(init, rows.last());
            lemma_row(before.agg, before.lines, ticks_in(init), rows.last(), rows.len());
            lemma_due_number(ticks_in(init), rows.last(), rows.len(), 0);
        } else {
            let k = before.taken - 1;
            assert(rows.take(k) =~= init.take(k));
        }
    } else {
        assert(none_due(rows));
    }
}

/// Lines are all taken if and only if each can be read, is no earlier than the
/// last trade of its symbol on the lines before, and leaves the sums within the
/// numbers that hold them. Otherwise the first line of which this is not true
/// stops it, for that reason, and whatever the numbers of the lines are.
pub proof fn law_stops_where_due(rows: Seq<Seq<u8>>, line_num: nat)
    ensures
        ({
            let done = run(AggState::fresh(), rows, line_num);
            let k = done.taken - 1;
            &&& done.halt is None <==> none_due(rows)
            &&& done.halt is Some ==> {
                &&& 0 <= k < rows.len()
                &&& none_due(rows.take(k))
                &&& done.halt == halt_due(
                    ticks_in(rows.take(k)),
                    rows[k],
                    (line_num + k + 1) as nat,
                )
            }
        }),
{
    lemma_stops(rows);
    law_numbers_have_no_say(AggState::fresh(), rows, 0, line_num);
    lemma_renumbered(rows, line_num);
}

/// Counting from another number only changes the numbers that are named.
proof fn lemma_renumbered(rows: Seq<Seq<u8>>, line_num: nat)
    ensures
        ({
            let done = run(AggState::fresh(), rows, line_num);
            let k = done.taken - 1;
            done.halt is Some ==> 0 <= k < rows.len() && done.halt == halt_due(
                ticks_in(rows.take(k)),
                rows[k],
                (line_num + k + 1) as nat,
            )
        }),
    decreases rows.len(),
{
    if rows.len() > 0 {
        let init = rows.drop_last();
        let n = init.len() as int;
        let before = run(AggState::fresh(), init, line_num);
        lemma_renumbered(init, line_num);
        lemma_run_taken(AggState::fresh(), init, line_num);
        assert(rows.take(n) =~= init);
        if before.halt is None {
            law_numbers_have_no_say(AggState::fresh(), init, 0, line_num);
            lemma_stops(init);
            lemma_run_before(init, rows.last());
            lemma_row(before.agg, before.lines, ticks_in(init), rows.last(), line_num + rows.len());
        } else {
            let k = before.taken - 1;
            assert(rows.take(k) =~= init.take(k));
        }
    }
}

/// An input goes through if and only if none of its lines is due to stop it.
pub proof fn law_input_goes_through(data: Seq<u8>)
    ensures
        goes_through(data) <==> none_due(rows_of(data)),
{
    law_input_is_its_rows(data);
    law_stops_where_due(rows_of(data), 0);
}

/// A line that is handed over after others is refused if and only if it cannot
/// be read or its trade is earlier than the last one taken of its symbol.
pub proof fn law_refused_by_history(calls: Seq<Call>, line: Seq<u8>, line_num: nat)
    ensures
        handed(calls).agg.on_line(line, line_num).fault == refusal_due(
            handed(calls).ticks,
            line,
            line_num,
        ),
{
    let done = handed(calls);
    if let Ok(Some(tick)) = read_line(line) {
        lemma_handed(calls, tick.symbol);
        lemma_refusal(done.agg, done.lines, done.ticks, tick, line, line_num);
    }
}

/// Trades of more lines begin with the trades of the first of them.
proof fn lemma_ticks_in_concat(a: Seq<Seq<u8>>, b: Seq<Seq<u8>>)
    ensures
        ticks_in(a + b) == ticks_in(a) + ticks_in(b),
    decreases b.len(),
{
    if b.len() == 0 {
        assert(a + b =~= a);
        assert(ticks_in(a) + Seq::<Tick>::empty() =~= ticks_in(a));
    } else {
        lemma_ticks_in_concat(a, b.drop_last());
        assert((a + b).drop_last() =~= a + b.drop_last());
        if let Ok(Some(tick)) = read_line(b.last()) {
            assert((ticks_in(a) + ticks_in(b.drop_last())).push(tick) =~= ticks_in(a) + ticks_in(
                b.drop_last(),
            ).push(tick));
        }
    }
}

/// More trades add up to no less.
proof fn lemma_sums_grow(a: Seq<Tick>, b: Seq<Tick>)
    ensures
        volume_sum(a) <= volume_sum(a + b),
        value_sum(a) <= value_sum(a + b),
    decreases b.len(),
{
    if b.len() == 0 {
        assert(a + b =~= a);
    } else {
        lemma_sums_grow(a, b.drop_last());
        assert((a + b).drop_last() =~= a + b.drop_last());
    }
}

/// Of more trades, those of a symbol in an hour add up to no less.
proof fn lemma_hour_grows(
    a: Seq<Tick>,
    b: Seq<Tick>,
    symbol: Seq<char>,
    date_key: u32,
    from: int,
    to: int,
)
    ensures
        ({
            let first = between(ticks_of(a, symbol), date_key, from, to);
            let whole = between(ticks_of(a + b, symbol), date_key, from, to);
            volume_sum(first) <= volume_sum(whole) && value_sum(first) <= value_sum(whole)
        }),
{
    let p = |t: Tick| t.symbol == symbol;
    let q = |t: Tick| t.date_key == date_key && from <= t.ts_ms < to;
    Seq::filter_distributes_over_add(a, b, p);
    Seq::filter_distributes_over_add(ticks_of(a, symbol), ticks_of(b, symbol), q);
    lemma_sums_grow(
        between(ticks_of(a, symbol), date_key, from, to),
        between(ticks_of(b, symbol), date_key, from, to),
    );
}

/// The volume and the value of any hour of any symbol, and the totals, are
/// within the numbers that hold them.
pub open spec fn sums_are_held(ticks: Seq<Tick>) -> bool {
    &&& forall|symbol: Seq<char>, date_key: u32, from: int|
        volume_sum(#[trigger] between(ticks_of(ticks, symbol), date_key, from, from + 3_600_000))
            <= 0xffff_ffff_ffff_ffff
    &&& volume_sum(ticks) <= 0xffff_ffff_ffff_ffff_ffff_ffff_ffff_ffff
    &&& value_sum(ticks) <= 0xffff_ffff_ffff_ffff_ffff_ffff_ffff_ffff
}

/// An input goes through if all its lines can be read, the trades of each symbol
/// come in order, and the sums are within the numbers that hold them.
pub proof fn law_sound_input_goes_through(data: Seq<u8>)
    requires
        forall|k: int|
            0 <= k < rows_of(data).len() ==> read_line(#[trigger] rows_of(data)[k]) is Ok,
        forall|symbol: Seq<char>| in_order(#[trigger] ticks_of(ticks_in(rows_of(data)), symbol)),
        sums_are_held(ticks_in(rows_of(data))),
    ensures
        goes_through(data),
{
    let rows = rows_of(data);
    law_input_goes_through(data);
    assert forall|k: int| 0 <= k < rows.len() implies #[trigger] goes_on(rows, k) by {
        lemma_sound_row(rows, k);
    }
}

/// A line of a sound input does not stop it.
proof fn lemma_sound_row(rows: Seq<Seq<u8>>, k: int)
    requires
        0 <= k < rows.len(),
        read_line(rows[k]) is Ok,
        forall|symbol: Seq<char>| in_order(#[trigger] ticks_of(ticks_in(rows), symbol)),
        sums_are_held(ticks_in(rows)),
    ensures
        goes_on(rows, k),
{
    reveal(goes_on);
    reveal(halt_due);
    if let Ok(Some(tick)) = read_line(rows[k]) {
        let ticks = ticks_in(rows.take(k));
        let upto = rows.take(k + 1);
        let more = ticks_in(rows.skip(k + 1));
        let symbol = tick.symbol;
        assert(upto.drop_last() =~= rows.take(k));
        assert(ticks_in(upto) == ticks.push(tick));
        lemma_ticks_in_concat(upto, rows.skip(k + 1));
        assert(upto + rows.skip(k + 1) =~= rows);
        lemma_ticks_of_push(ticks, tick, symbol);
        let own = ticks_of(ticks, symbol);
        let all = ticks_of(ticks_in(rows), symbol);
        Seq::filter_distributes_over_add(ticks.push(tick), more, |t: Tick| t.symbol == symbol);
        assert(all == own.push(tick) + ticks_of(more, symbol));
        assert(in_order(all));
        if own.len() > 0 {
            let n = own.len() as int;
            assert(all[n - 1] == own.last() && all[n] == tick);
            assert(not_after(all[n - 1], all[n]));
        }
        let now = ticks.push(tick);
        assert(now.last() == tick);
        let start = tick.ts_ms as int / 3_600_000 * 3_600_000;
        lemma_hour_grows(now, more, symbol, tick.date_key, start, start + 3_600_000);
        lemma_sums_grow(now, more);
        let hour = between(all, tick.date_key, start, start + 3_600_000);
        assert(volume_sum(hour) <= 0xffff_ffff_ffff_ffff);
        lemma_selected_value(now, symbol, tick.date_key, start, start + 3_600_000);
    }
}

/// A selection is worth no more than the whole.
proof fn lemma_selected_value(
    ticks: Seq<Tick>,
    symbol: Seq<char>,
    date_key: u32,
    from: int,
    to: int,
)
    ensures
        value_sum(between(ticks_of(ticks, symbol), date_key, from, to)) <= value_sum(ticks),
    decreases ticks.len(),
{
    reveal(Seq::filter);
    if ticks.len() > 0 {
        let init = ticks.drop_last();
        let tick = ticks.last();
        lemma_selected_value(init, symbol, date_key, from, to);
        assert(init.push(tick) =~= ticks);
        lemma_ticks_of_push(init, tick, symbol);
        let own = ticks_of(init, symbol);
        let sel = between(own, date_key, from, to);
        assert(own.push(tick).drop_last() =~= own);
        assert(sel.push(tick).drop_last() =~= sel);
    } else {
        assert(ticks_of(ticks, symbol) =~= Seq::<Tick>::empty());
        assert(between(ticks_of(ticks, symbol), date_key, from, to) =~= Seq::<Tick>::empty());
    }
}

} // verus!
