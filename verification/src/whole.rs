//! What a whole input gives, from its bytes to the lines put out.
use vstd::prelude::*;

use crate::agg::{last_lines, AggState};
use crate::balance::{
    law_totals_balance, lemma_last_lines_balance, lemma_of_lines_concat, of_entries, of_lines,
    open_and_total,
};
use crate::history::{all_of, in_order, lemma_caught_up, not_after, replay, whole_output};
use crate::parse::{read_line, Tick};
use crate::record::{symbol_of, Line};
use crate::split::{lemma_pieces_nonempty, pieces};
use crate::stream::{lemma_run_concat, lemma_run_taken, on_row, run, StreamState, NEWLINE};
use crate::symbol::SymbolState;
use crate::table::{
    ascending, law_put_leaves_others, law_put_then_state_of, lemma_found, lemma_place,
    lemma_put_ascending, listed, place, put, state_of, Entry,
};
use crate::weighing::{value_sum, volume_sum};

verus! {

/// The lines of an input. What follows the last end of a line is a line too,
/// unless it is empty.
pub open spec fn rows_of(data: Seq<u8>) -> Seq<Seq<u8>> {
    let cut = pieces(data, NEWLINE);
    if cut.last().len() > 0 {
        cut
    } else {
        cut.drop_last()
    }
}

/// The trades on the lines.
pub open spec fn ticks_in(rows: Seq<Seq<u8>>) -> Seq<Tick>
    decreases rows.len(),
{
    if rows.len() == 0 {
        Seq::empty()
    } else {
        match read_line(rows.last()) {
            Ok(Some(tick)) => ticks_in(rows.drop_last()).push(tick),
            _ => ticks_in(rows.drop_last()),
        }
    }
}

/// The trades of a symbol.
pub open spec fn ticks_of(ticks: Seq<Tick>, symbol: Seq<char>) -> Seq<Tick> {
    ticks.filter(|t: Tick| t.symbol == symbol)
}

/// The line is about the symbol.
pub open spec fn is_about(line: Line, symbol: Seq<char>) -> bool {
    symbol_of(line) == Some(symbol)
}

/// The lines about a symbol.
pub open spec fn lines_of(lines: Seq<Line>, symbol: Seq<char>) -> Seq<Line> {
    lines.filter(|l: Line| is_about(l, symbol))
}

/// All that an input puts out, where nothing stops it.
pub open spec fn output_of(data: Seq<u8>) -> Seq<Line> {
    let fed = StreamState::fresh().fed(data);
    fed.lines + fed.stream.ended().lines
}

/// Every line of the input is read and none is refused, and the sums stay
/// within the machine's numbers.
pub open spec fn goes_through(data: Seq<u8>) -> bool {
    let fed = StreamState::fresh().fed(data);
    fed.halt is None && fed.stream.ended().halt is None
}

/// All lines are about the symbol.
pub open spec fn only_about(lines: Seq<Line>, symbol: Seq<char>) -> bool {
    forall|i: int| 0 <= i < lines.len() ==> is_about(#[trigger] lines[i], symbol)
}

/// Selecting the lines about the symbol that they are all about, or about another.
proof fn lemma_lines_of_only(lines: Seq<Line>, symbol: Seq<char>, other: Seq<char>)
    requires
        only_about(lines, symbol),
    ensures
        lines_of(lines, symbol) == lines,
        other != symbol ==> lines_of(lines, other) == Seq::<Line>::empty(),
    decreases lines.len(),
{
    reveal(Seq::filter);
    if lines.len() > 0 {
        let init = lines.drop_last();
        assert(forall|i: int| 0 <= i < init.len() ==> init[i] == lines[i]);
        assert(only_about(init, symbol));
        lemma_lines_of_only(init, symbol, other);
        assert(is_about(lines[lines.len() - 1], symbol));
        assert(lines =~= init.push(lines.last()));
    } else {
        assert(lines =~= Seq::<Line>::empty());
    }
}

/// What a trade brings out is about its symbol.
pub proof fn lemma_record_only_about(state: SymbolState, tick: Tick)
    ensures
        only_about(state.record(tick).lines, tick.symbol),
{
}

/// What the end brings out is about the symbol.
pub proof fn lemma_finish_only_about(state: SymbolState, symbol: Seq<char>)
    ensures
        only_about(state.finish(symbol).lines, symbol),
{
}

/// Selections of one more trade.
pub proof fn lemma_ticks_of_push(ticks: Seq<Tick>, tick: Tick, symbol: Seq<char>)
    ensures
        ticks_of(ticks.push(tick), symbol) == if tick.symbol == symbol {
            ticks_of(ticks, symbol).push(tick)
        } else {
            ticks_of(ticks, symbol)
        },
{
    reveal(Seq::filter);
    assert(ticks.push(tick).drop_last() =~= ticks);
}

/// The trades of a symbol are all of it.
pub proof fn lemma_ticks_of_all(ticks: Seq<Tick>, symbol: Seq<char>)
    ensures
        all_of(ticks_of(ticks, symbol), symbol),
    decreases ticks.len(),
{
    reveal(Seq::filter);
    if ticks.len() > 0 {
        lemma_ticks_of_all(ticks.drop_last(), symbol);
    }
}

/// What holds of the lines taken so far, told for one symbol.
pub open spec fn in_step(
    agg: AggState,
    out: Seq<Line>,
    ticks: Seq<Tick>,
    symbol: Seq<char>,
) -> bool {
    let own = ticks_of(ticks, symbol);
    &&& in_order(own)
    &&& state_of(agg.entries, symbol) == replay(own).state
    &&& lines_of(out, symbol) == replay(own).lines
}

/// A trade that is not refused comes after those that were taken.
pub proof fn lemma_order_extends(own: Seq<Tick>, tick: Tick)
    requires
        in_order(own),
        all_of(own, tick.symbol),
        replay(own).state.order_fault(tick) is None,
    ensures
        in_order(own.push(tick)),
{
    lemma_caught_up(tick.symbol, own);
    let next = own.push(tick);
    assert forall|i: int, j: int| 0 <= i < j < next.len() implies not_after(
        #[trigger] next[i],
        #[trigger] next[j],
    ) by {
        assert(next[i] == own[i]);
        if j < own.len() {
            assert(next[j] == own[j]);
        } else {
            let last = own[own.len() - 1];
            assert(not_after(last, tick));
            if i < own.len() - 1 {
                assert(not_after(own[i], last));
            }
        }
    }
}

/// What one more trade does.
proof fn lemma_replay_push(own: Seq<Tick>, tick: Tick)
    ensures
        replay(own.push(tick)).state == replay(own).state.record(tick).state,
        replay(own.push(tick)).lines == replay(own).lines + replay(own).state.record(tick).lines,
{
    assert(own.push(tick).drop_last() =~= own);
}

/// The lines about a symbol, with those that a trade brings out.
proof fn lemma_lines_of_record(out: Seq<Line>, state: SymbolState, tick: Tick, symbol: Seq<char>)
    ensures
        lines_of(out + state.record(tick).lines, symbol) == if tick.symbol == symbol {
            lines_of(out, symbol) + state.record(tick).lines
        } else {
            lines_of(out, symbol)
        },
{
    let new = state.record(tick).lines;
    lemma_record_only_about(state, tick);
    lemma_lines_of_only(new, tick.symbol, symbol);
    Seq::filter_distributes_over_add(out, new, |l: Line| is_about(l, symbol));
    assert(lines_of(out, symbol) + Seq::<Line>::empty() =~= lines_of(out, symbol));
}

/// One more trade that is in order keeps a symbol in step.
pub proof fn lemma_tick_in_step(
    agg: AggState,
    out: Seq<Line>,
    ticks: Seq<Tick>,
    tick: Tick,
    symbol: Seq<char>,
)
    requires
        ascending(agg.entries),
        in_step(agg, out, ticks, symbol),
        agg.order_fault(tick) is None,
    ensures
        in_step(agg.on_tick(tick).agg, out + agg.on_tick(tick).lines, ticks.push(tick), symbol),
{
    let own = ticks_of(ticks, symbol);
    let state = state_of(agg.entries, tick.symbol);
    let next = state.record(tick).state;
    let done = agg.on_tick(tick);
    assert(done.agg.entries == put(agg.entries, tick.symbol, next));
    assert(done.lines == state.record(tick).lines);
    lemma_ticks_of_push(ticks, tick, symbol);
    lemma_lines_of_record(out, state, tick, symbol);
    if tick.symbol == symbol {
        law_put_then_state_of(agg.entries, symbol, next);
        lemma_ticks_of_all(ticks, symbol);
        lemma_order_extends(own, tick);
        lemma_replay_push(own, tick);
    } else {
        law_put_leaves_others(agg.entries, tick.symbol, next, symbol);
    }
}

/// What holds of the lines taken so far, for all symbols together.
pub open spec fn adds_up(agg: AggState, out: Seq<Line>, ticks: Seq<Tick>) -> bool {
    &&& ascending(agg.entries)
    &&& agg.totals.volume == volume_sum(ticks)
    &&& agg.totals.pv == value_sum(ticks)
    &&& of_lines(out).plus(of_entries(agg.entries)) == open_and_total(agg).1
}

/// One more trade that is in order keeps the sums.
pub proof fn lemma_tick_adds_up(agg: AggState, out: Seq<Line>, ticks: Seq<Tick>, tick: Tick)
    requires
        adds_up(agg, out, ticks),
        agg.order_fault(tick) is None,
    ensures
        adds_up(agg.on_tick(tick).agg, out + agg.on_tick(tick).lines, ticks.push(tick)),
{
    let done = agg.on_tick(tick);
    law_totals_balance(agg, tick);
    lemma_put_ascending(
        agg.entries,
        tick.symbol,
        state_of(agg.entries, tick.symbol).record(tick).state,
    );
    lemma_of_lines_concat(out, done.lines);
    assert(ticks.push(tick).drop_last() =~= ticks);
}

/// Lines taken without a stop keep the sums and every symbol in step.
pub proof fn lemma_run(rows: Seq<Seq<u8>>, symbol: Seq<char>)
    requires
        run(AggState::fresh(), rows, 0).halt is None,
    ensures
        ({
            let done = run(AggState::fresh(), rows, 0);
            &&& adds_up(done.agg, done.lines, ticks_in(rows))
            &&& in_step(done.agg, done.lines, ticks_in(rows), symbol)
        }),
    decreases rows.len(),
{
    reveal(on_row);
    reveal(Seq::filter);
    if rows.len() > 0 {
        let init = run(AggState::fresh(), rows.drop_last(), 0);
        lemma_run(rows.drop_last(), symbol);
        match read_line(rows.last()) {
            Ok(Some(tick)) => {
                lemma_tick_in_step(
                    init.agg,
                    init.lines,
                    ticks_in(rows.drop_last()),
                    tick,
                    symbol,
                );
                lemma_tick_adds_up(init.agg, init.lines, ticks_in(rows.drop_last()), tick);
            },
            Ok(None) => {
                assert(init.lines + Seq::<Line>::empty() =~= init.lines);
            },
            Err(_) => {},
        }
    } else {
        assert(ticks_of(ticks_in(rows), symbol) =~= Seq::<Tick>::empty());
        assert(lines_of(run(AggState::fresh(), rows, 0).lines, symbol) =~= Seq::<Line>::empty());
    }
}

/// An input does what its lines do, one after the other, and, where nothing stops
/// it, what the end of the input does then.
pub proof fn law_input_is_its_rows(data: Seq<u8>)
    ensures
        ({
            let fed = StreamState::fresh().fed(data);
            let ended = fed.stream.ended();
            let done = run(AggState::fresh(), rows_of(data), 0);
            &&& fed.halt is Some ==> {
                &&& done.halt == fed.halt
                &&& done.lines == fed.lines
                &&& done.taken == fed.stream.line_num
            }
            &&& fed.halt is None ==> {
                &&& done.halt == ended.halt
                &&& done.taken == ended.stream.line_num
                &&& fed.lines + ended.lines == if done.halt is None {
                    done.lines + done.agg.at_end()
                } else {
                    done.lines
                }
            }
        }),
{
    let start = StreamState::fresh();
    assert(start.carry + data =~= data);
    lemma_pieces_nonempty(data, NEWLINE);
    let cut = pieces(data, NEWLINE);
    let fed = start.fed(data);
    let first = run(start.agg, cut.drop_last(), 0);
    lemma_run_taken(start.agg, cut.drop_last(), 0);
    if fed.halt is Some {
        let rest = if cut.last().len() > 0 {
            seq![cut.last()]
        } else {
            Seq::empty()
        };
        lemma_run_concat(start.agg, cut.drop_last(), rest, 0);
        assert(rows_of(data) =~= cut.drop_last() + rest);
    } else {
        lemma_run_concat(start.agg, cut.drop_last(), fed.stream.last_row(), 0);
        assert(rows_of(data) =~= cut.drop_last() + fed.stream.last_row());
        let second = run(first.agg, fed.stream.last_row(), fed.stream.line_num);
        assert(first.lines + (second.lines + second.agg.at_end()) =~= first.lines + second.lines
            + second.agg.at_end());
    }
}

/// The state of a symbol is that of the last entry, or found among the others.
proof fn lemma_state_of_last(entries: Seq<Entry>, symbol: Seq<char>)
    requires
        ascending(entries),
        entries.len() > 0,
    ensures
        ascending(entries.drop_last()),
        entries.last().symbol == symbol ==> state_of(entries, symbol) == entries.last().state
            && state_of(entries.drop_last(), symbol) == SymbolState::fresh(),
        entries.last().symbol != symbol ==> state_of(entries, symbol) == state_of(
            entries.drop_last(),
            symbol,
        ),
{
    let init = entries.drop_last();
    assert(forall|i: int| 0 <= i < init.len() ==> init[i] == entries[i]);
    lemma_place(entries, symbol);
    lemma_place(init, symbol);
    let p = place(init, symbol) as int;
    if entries.last().symbol == symbol {
        lemma_found(entries, entries.len() - 1);
        if listed(init, symbol) {
            assert(init[p] == entries[p]);
            lemma_found(entries, p);
        }
    } else if listed(entries, symbol) {
        let q = place(entries, symbol) as int;
        assert(init[q] == entries[q]);
        lemma_found(init, q);
    } else if listed(init, symbol) {
        assert(init[p] == entries[p]);
        lemma_found(entries, p);
    }
}

/// A symbol without trades puts out nothing.
proof fn lemma_fresh_finish(symbol: Seq<char>)
    ensures
        SymbolState::fresh().finish(symbol).lines == Seq::<Line>::empty(),
{
    assert(SymbolState::fresh().finish(symbol).lines =~= Seq::<Line>::empty());
}

/// The lines about a symbol, with those that the end brings out of some symbol.
proof fn lemma_lines_of_finish(
    out: Seq<Line>,
    state: SymbolState,
    shown: Seq<char>,
    symbol: Seq<char>,
)
    ensures
        lines_of(out + state.finish(shown).lines, symbol) == if shown == symbol {
            lines_of(out, symbol) + state.finish(shown).lines
        } else {
            lines_of(out, symbol)
        },
{
    let new = state.finish(shown).lines;
    lemma_finish_only_about(state, shown);
    lemma_lines_of_only(new, shown, symbol);
    Seq::filter_distributes_over_add(out, new, |l: Line| is_about(l, symbol));
    assert(lines_of(out, symbol) + Seq::<Line>::empty() =~= lines_of(out, symbol));
}

/// Of what the symbols put out at the end, each has its own part.
proof fn lemma_last_lines_of(entries: Seq<Entry>, symbol: Seq<char>)
    requires
        ascending(entries),
    ensures
        lines_of(last_lines(entries), symbol) == state_of(entries, symbol).finish(symbol).lines,
    decreases entries.len(),
{
    lemma_fresh_finish(symbol);
    if entries.len() > 0 {
        let last = entries.last();
        let init = entries.drop_last();
        lemma_state_of_last(entries, symbol);
        lemma_last_lines_of(init, symbol);
        lemma_lines_of_finish(last_lines(init), last.state, last.symbol, symbol);
        assert(Seq::<Line>::empty() + last.state.finish(symbol).lines =~= last.state.finish(
            symbol,
        ).lines);
    } else {
        reveal(Seq::filter);
        assert(lines_of(last_lines(entries), symbol) =~= Seq::<Line>::empty());
    }
}

/// The lines about a symbol, with those that the end of the input brings out.
pub proof fn lemma_end_in_step(agg: AggState, out: Seq<Line>, ticks: Seq<Tick>, symbol: Seq<char>)
    requires
        ascending(agg.entries),
        in_step(agg, out, ticks, symbol),
    ensures
        lines_of(out + agg.at_end(), symbol) == whole_output(symbol, ticks_of(ticks, symbol)),
{
    let end = agg.at_end();
    lemma_last_lines_of(agg.entries, symbol);
    let pred = |l: Line| is_about(l, symbol);
    Seq::filter_distributes_over_add(out, end, pred);
    assert(lines_of(end, symbol) == lines_of(last_lines(agg.entries), symbol)) by {
        reveal(Seq::filter);
        assert(end.drop_last() =~= last_lines(agg.entries));
    }
}

/// The last line shows the totals of all trades, and these are what the minute
/// lines and the hour lines add up to.
pub open spec fn all_added(out: Seq<Line>, ticks: Seq<Tick>) -> bool {
    &&& out.len() > 0
    &&& out.last() matches Line::Summary { totals }
    &&& totals.volume == volume_sum(ticks)
    &&& totals.pv == value_sum(ticks)
    &&& of_lines(out).minute_volume == totals.volume
    &&& of_lines(out).hour_volume == totals.volume
    &&& of_lines(out).hour_value == totals.pv
}

/// The sums, with what the end of the input brings out.
pub proof fn lemma_end_adds_up(agg: AggState, out: Seq<Line>, ticks: Seq<Tick>)
    requires
        adds_up(agg, out, ticks),
    ensures
        all_added(out + agg.at_end(), ticks),
{
    lemma_last_lines_balance(agg.entries);
    lemma_of_lines_concat(out, agg.at_end());
    assert(agg.at_end().drop_last() =~= last_lines(agg.entries));
}

/// All that lines put out, up to the end of the input after them, where nothing
/// stops it.
pub open spec fn output_of_rows(rows: Seq<Seq<u8>>) -> Seq<Line> {
    let done = run(AggState::fresh(), rows, 0);
    done.lines + done.agg.at_end()
}

/// What lines put out about a symbol depends on the trades of that symbol
/// alone, which come in order: it is what they give by themselves. The lines
/// need not be cut from one input.
pub proof fn law_rows_by_symbol(rows: Seq<Seq<u8>>, symbol: Seq<char>)
    requires
        run(AggState::fresh(), rows, 0).halt is None,
    ensures
        ({
            let own = ticks_of(ticks_in(rows), symbol);
            &&& in_order(own)
            &&& all_of(own, symbol)
            &&& lines_of(output_of_rows(rows), symbol) == whole_output(symbol, own)
        }),
{
    let done = run(AggState::fresh(), rows, 0);
    lemma_run(rows, symbol);
    lemma_ticks_of_all(ticks_in(rows), symbol);
    lemma_end_in_step(done.agg, done.lines, ticks_in(rows), symbol);
}

/// The totals that lines lead to are those of all their trades, and what the
/// minute lines and the hour lines add up to.
pub proof fn law_rows_add_up(rows: Seq<Seq<u8>>)
    requires
        run(AggState::fresh(), rows, 0).halt is None,
    ensures
        all_added(output_of_rows(rows), ticks_in(rows)),
{
    let done = run(AggState::fresh(), rows, 0);
    lemma_run(rows, Seq::empty());
    lemma_end_adds_up(done.agg, done.lines, ticks_in(rows));
}

/// What an input puts out about a symbol depends on the trades of that symbol
/// alone, which come in order: it is what they give by themselves.
pub proof fn law_output_by_symbol(data: Seq<u8>, symbol: Seq<char>)
    requires
        goes_through(data),
    ensures
        ({
            let own = ticks_of(ticks_in(rows_of(data)), symbol);
            &&& in_order(own)
            &&& all_of(own, symbol)
            &&& lines_of(output_of(data), symbol) == whole_output(symbol, own)
        }),
{
    law_input_is_its_rows(data);
    law_rows_by_symbol(rows_of(data), symbol);
}

/// The last line of an output shows the totals of all trades of the input, and
/// these are what the minute lines and the hour lines add up to.
pub proof fn law_summary_adds_up(data: Seq<u8>)
    requires
        goes_through(data),
    ensures
        all_added(output_of(data), ticks_in(rows_of(data))),
{
    law_input_is_its_rows(data);
    law_rows_add_up(rows_of(data));
}

} // verus!
