//! The aggregation over all symbols.
use vstd::prelude::*;

use crate::clock::MSEC_PER_DAY;
use crate::error::{AppError, Fault};
use crate::order::before;
use crate::parse::{outcome, read_line, ParseError, ParsedTick, Tick};
use crate::record::{lemma_lines_push, lines, symbol_of, Line, Record};
use crate::steady::{lemma_record_steady, lemma_steady_can_close};
use crate::summary::{Summary, Totals};
use crate::symbol::SymbolAgg;
use crate::table::{
    ascending, law_put_leaves_others, lemma_place, lemma_put_ascending, listed, place, put,
    state_of, Entry, SymbolTable,
};

verus! {

/// The aggregation as the models see it.
pub struct AggState {
    pub entries: Seq<Entry>,
    pub totals: Totals,
}

/// What an input does: the next state, what is put out, and what is wrong
/// with the input, if anything.
pub struct Outcome {
    pub agg: AggState,
    pub lines: Seq<Line>,
    pub fault: Option<Fault>,
}

impl AggState {
    /// Before the first trade.
    pub open spec fn fresh() -> AggState {
        AggState { entries: Seq::empty(), totals: Totals::zero() }
    }

    /// The symbols ascend and the state of each is steady.
    pub open spec fn steady(self) -> bool {
        &&& ascending(self.entries)
        &&& forall|i: int|
            0 <= i < self.entries.len() ==> (#[trigger] self.entries[i]).state.steady()
    }

    /// What an input that is passed over or refused does.
    pub open spec fn unchanged(self, fault: Option<Fault>) -> Outcome {
        Outcome { agg: self, lines: Seq::empty(), fault }
    }

    /// What is wrong with the order in which the trade comes, if anything.
    pub open spec fn order_fault(self, tick: Tick) -> Option<Fault> {
        state_of(self.entries, tick.symbol).order_fault(tick)
    }

    /// What a trade does: it is refused where it is out of order, and else goes
    /// to the state of its symbol and to the totals.
    pub open spec fn on_tick(self, tick: Tick) -> Outcome {
        match self.order_fault(tick) {
            Some(fault) => self.unchanged(Some(fault)),
            None => {
                let moved = state_of(self.entries, tick.symbol).record(tick);
                Outcome {
                    agg: AggState {
                        entries: put(self.entries, tick.symbol, moved.state),
                        totals: self.totals.with(tick),
                    },
                    lines: moved.lines,
                    fault: None,
                }
            },
        }
    }

    /// What the outcome of reading a line does.
    pub open spec fn on_parsed(
        self,
        parsed: Result<Option<Tick>, ParseError>,
        line_num: nat,
    ) -> Outcome {
        match parsed {
            Ok(Some(tick)) => self.on_tick(tick),
            Ok(None) => self.unchanged(None),
            Err(source) => self.unchanged(Some(Fault::Parse { line_num, source })),
        }
    }

    /// What a line does.
    pub open spec fn on_line(self, line: Seq<u8>, line_num: nat) -> Outcome {
        self.on_parsed(read_line(line), line_num)
    }

    /// Recording the trade stays within the machine's numbers.
    pub open spec fn has_room(self, tick: Tick) -> bool {
        &&& state_of(self.entries, tick.symbol).can_record(tick)
        &&& self.totals.can_take(tick)
    }

    /// What was read is no trade, or it is out of order, or there is room for it.
    pub open spec fn has_room_parsed(self, parsed: Result<Option<Tick>, ParseError>) -> bool {
        parsed matches Ok(Some(tick)) ==> self.order_fault(tick) is None ==> self.has_room(tick)
    }

    /// What the end of the input puts out: for each symbol, in ascending
    /// order, what is current; and then the totals.
    pub open spec fn at_end(self) -> Seq<Line> {
        last_lines(self.entries).push(Line::Summary { totals: self.totals })
    }
}

/// What the symbols put out at the end of the input.
pub open spec fn last_lines(entries: Seq<Entry>) -> Seq<Line>
    decreases entries.len(),
{
    if entries.len() == 0 {
        Seq::empty()
    } else {
        last_lines(entries.drop_last()) + entries.last().state.finish(entries.last().symbol).lines
    }
}

/// The state of any symbol is steady.
pub proof fn lemma_state_steady(agg: AggState, symbol: Seq<char>)
    requires
        agg.steady(),
    ensures
        state_of(agg.entries, symbol).steady(),
{
}

/// A trade, in order or not, keeps the aggregation steady.
pub proof fn lemma_on_tick_steady(agg: AggState, tick: Tick)
    requires
        agg.steady(),
        tick.ts_ms < MSEC_PER_DAY,
    ensures
        agg.on_tick(tick).agg.steady(),
{
    if agg.order_fault(tick) is None {
        let state = state_of(agg.entries, tick.symbol);
        lemma_state_steady(agg, tick.symbol);
        lemma_record_steady(state, tick);
        let next = state.record(tick).state;
        lemma_put_ascending(agg.entries, tick.symbol, next);
        lemma_place(agg.entries, tick.symbol);
        let p = place(agg.entries, tick.symbol) as int;
        let entries = put(agg.entries, tick.symbol, next);
        assert forall|i: int| 0 <= i < entries.len() implies (
        #[trigger] entries[i]).state.steady() by {
            if i != p {
                if listed(agg.entries, tick.symbol) || i < p {
                    assert(entries[i] == agg.entries[i]);
                } else {
                    assert(entries[i] == agg.entries[i - 1]);
                }
            }
        }
    }
}

/// What a result says is wrong.
pub open spec fn fault_of(res: Result<(), AppError>) -> Option<Fault> {
    match res {
        Ok(()) => None,
        Err(e) => Some(e@),
    }
}

/// The aggregation over all symbols.
#[derive(Debug)]
pub struct Aggregator {
    states: SymbolTable,
    summary: Summary,
}

impl View for Aggregator {
    type V = AggState;

    closed spec fn view(&self) -> AggState {
        AggState { entries: self.states@, totals: self.summary@ }
    }
}

impl Aggregator {
    /// The state is steady.
    pub closed spec fn wf(self) -> bool {
        self.states.wf() && self@.steady()
    }

    /// An aggregation is steady at any time: the symbols ascend, and what is
    /// current of each belongs to its last trade.
    pub proof fn law_steady(self)
        requires
            self.wf(),
        ensures
            self@.steady(),
    {
    }

    /// An aggregation before the first trade.
    pub fn new() -> (agg: Aggregator)
        ensures
            agg.wf(),
            agg@ == AggState::fresh(),
    {
        Aggregator { states: SymbolTable::new(), summary: Summary::default() }
    }

    /// Takes a line of the input.
    pub fn process_line(&mut self, line: &[u8], line_num: usize, out: &mut Vec<Record>) -> (res:
        Result<(), AppError>)
        requires
            old(self).wf(),
            old(self)@.has_room_parsed(read_line(line@)),
        ensures
            final(self).wf(),
            final(self)@ == old(self)@.on_line(line@, line_num as nat).agg,
            lines(final(out)@) == lines(old(out)@) + old(self)@.on_line(
                line@,
                line_num as nat,
            ).lines,
            fault_of(res) == old(self)@.on_line(line@, line_num as nat).fault,
    {
        self.process_parsed(ParsedTick::parse(line), line_num, out)
    }

    /// Takes what reading a line of the input gave.
    pub fn process_parsed<'a>(
        &mut self,
        parsed: Result<Option<ParsedTick<'a>>, ParseError>,
        line_num: usize,
        out: &mut Vec<Record>,
    ) -> (res: Result<(), AppError>)
        requires
            old(self).wf(),
            parsed matches Ok(Some(tick)) ==> tick.ts_ms < MSEC_PER_DAY,
            old(self)@.has_room_parsed(outcome(parsed)),
        ensures
            final(self).wf(),
            final(self)@ == old(self)@.on_parsed(outcome(parsed), line_num as nat).agg,
            lines(final(out)@) == lines(old(out)@) + old(self)@.on_parsed(
                outcome(parsed),
                line_num as nat,
            ).lines,
            fault_of(res) == old(self)@.on_parsed(outcome(parsed), line_num as nat).fault,
    {
        match parsed {
            Ok(Some(tick)) => self.process_tick(&tick, out),
            Ok(None) => {
                assert(lines(out@) =~= lines(out@) + Seq::<Line>::empty());
                Ok(())
            },
            Err(source) => {
                assert(lines(out@) =~= lines(out@) + Seq::<Line>::empty());
                Err(AppError::Parse { line_num, source })
            },
        }
    }

    /// Takes a trade.
    pub fn process_tick(&mut self, tick: &ParsedTick<'_>, out: &mut Vec<Record>) -> (res: Result<
        (),
        AppError,
    >)
        requires
            old(self).wf(),
            tick.ts_ms < MSEC_PER_DAY,
            old(self)@.order_fault(tick@) is None ==> old(self)@.has_room(tick@),
        ensures
            final(self).wf(),
            final(self)@ == old(self)@.on_tick(tick@).agg,
            lines(final(out)@) == lines(old(out)@) + old(self)@.on_tick(tick@).lines,
            fault_of(res) == old(self)@.on_tick(tick@).fault,
    {
        proof {
            lemma_on_tick_steady(self@, tick@);
        }
        let found: (usize, bool) = self.states.find(tick.symbol);
        let mut state: SymbolAgg = if found.1 {
            self.states.state_at(found.0)
        } else {
            SymbolAgg::default()
        };
        match state.check_ts_order(tick) {
            Ok(()) => {},
            Err(e) => {
                assert(lines(out@) =~= lines(out@) + Seq::<Line>::empty());
                return Err(e);
            },
        }
        state.record_parsed_tick(tick, out);
        self.states.put_at(found, tick.symbol, state);
        self.summary.record_parsed_tick(tick);
        Ok(())
    }

    /// Whether taking what reading a line gave stays within the machine's numbers.
    pub fn room_for<'a>(&self, parsed: &Result<Option<ParsedTick<'a>>, ParseError>) -> (room: bool)
        requires
            self.wf(),
            parsed matches Ok(Some(tick)) ==> tick.ts_ms < MSEC_PER_DAY,
        ensures
            room == self@.has_room_parsed(outcome(*parsed)),
    {
        match parsed {
            Ok(Some(tick)) => {
                let found: (usize, bool) = self.states.find(tick.symbol);
                let state: SymbolAgg = if found.1 {
                    self.states.state_at(found.0)
                } else {
                    SymbolAgg::default()
                };
                proof {
                    lemma_state_steady(self@, tick.symbol@);
                }
                match state.check_ts_order(tick) {
                    Ok(()) => state.has_room(tick) && self.summary.has_room(tick),
                    Err(_) => true,
                }
            },
            _ => true,
        }
    }

    /// Ends the input: puts out what is current of every symbol, in ascending
    /// order of the symbols, and then the totals, which stay.
    pub fn flush(&mut self, out: &mut Vec<Record>)
        requires
            old(self).wf(),
        ensures
            final(self).wf(),
            final(self)@ == (AggState { entries: Seq::empty(), totals: old(self)@.totals }),
            lines(final(out)@) == lines(old(out)@) + old(self)@.at_end(),
    {
        let ghost entries = self.states@;
        let count: usize = self.states.len();
        let mut i: usize = 0;
        while i < count
            invariant
                i <= count,
                count == entries.len(),
                *self == *old(self),
                self.wf(),
                entries == self.states@,
                lines(out@) == lines(old(out)@) + last_lines(entries.take(i as int)),
            decreases count - i,
        {
            let mut state: SymbolAgg = self.states.state_at(i);
            proof {
                assert(self@.entries[i as int].state.steady());
                lemma_steady_can_close(state@);
                assert(entries.take(i + 1).drop_last() =~= entries.take(i as int));
            }
            state.flush(self.states.symbol_at(i), out);
            assert(lines(out@) =~= lines(old(out)@) + last_lines(entries.take(i + 1)));
            i += 1;
        }
        let record = Record::Summary { summary: self.summary };
        proof {
            assert(entries.take(i as int) =~= entries);
            lemma_lines_push(out@, record);
        }
        out.push(record);
        self.states = SymbolTable::new();
        assert(lines(out@) =~= lines(old(out)@) + old(self)@.at_end());
    }
}

/// A line that is refused changes nothing and puts out nothing.
pub proof fn law_refused_changes_nothing(agg: AggState, line: Seq<u8>, line_num: nat)
    ensures
        agg.on_line(line, line_num).fault is Some ==> {
            &&& agg.on_line(line, line_num).agg == agg
            &&& agg.on_line(line, line_num).lines == Seq::<Line>::empty()
        },
{
}

/// A line is refused if and only if it cannot be read, or holds a trade that
/// is earlier than one already taken of its symbol.
pub proof fn law_when_refused(agg: AggState, line: Seq<u8>, line_num: nat)
    ensures
        agg.on_line(line, line_num).fault is Some <==> match read_line(line) {
            Err(_) => true,
            Ok(None) => false,
            Ok(Some(tick)) => {
                let state = state_of(agg.entries, tick.symbol);
                state.date_key matches Some(date_key) && (tick.date_key < date_key || (tick.date_key
                    == date_key && (state.last_seen_ms matches Some(seen) && tick.ts_ms < seen)))
            },
        },
{
}

/// A trade leaves the state of every other symbol as it is.
pub proof fn law_other_symbols_untouched(agg: AggState, tick: Tick, other: Seq<char>)
    requires
        agg.steady(),
        other != tick.symbol,
    ensures
        state_of(agg.on_tick(tick).agg.entries, other) == state_of(agg.entries, other),
{
    if agg.order_fault(tick) is None {
        law_put_leaves_others(
            agg.entries,
            tick.symbol,
            state_of(agg.entries, tick.symbol).record(tick).state,
            other,
        );
    }
}

/// At the end of the input the lines come in ascending order of the symbols,
/// and the totals come last.
pub proof fn law_end_in_symbol_order(agg: AggState)
    requires
        agg.steady(),
    ensures
        agg.at_end().last() == (Line::Summary { totals: agg.totals }),
        forall|i: int, j: int|
            0 <= i < j < agg.at_end().len() - 1 ==> (#[trigger] symbol_of(agg.at_end()[i]))
                == (#[trigger] symbol_of(agg.at_end()[j])) || before(
                symbol_of(agg.at_end()[i])->0,
                symbol_of(agg.at_end()[j])->0,
            ),
{
    let all = agg.at_end();
    let lines = last_lines(agg.entries);
    lemma_last_lines_ascend(agg.entries);
    assert forall|i: int, j: int| 0 <= i < j < all.len() - 1 implies (#[trigger] symbol_of(all[i]))
        == (#[trigger] symbol_of(all[j])) || before(symbol_of(all[i])->0, symbol_of(all[j])->0) by {
        assert(all[i] == lines[i] && all[j] == lines[j]);
        assert(symbol_of(lines[i]) is Some && symbol_of(lines[j]) is Some);
    }
}

proof fn lemma_last_lines_ascend(entries: Seq<Entry>)
    requires
        ascending(entries),
    ensures
        forall|i: int|
            0 <= i < last_lines(entries).len() ==> exists|e: int|
                0 <= e < entries.len() && symbol_of(#[trigger] last_lines(entries)[i]) == Some(
                    (#[trigger] entries[e]).symbol,
                ),
        forall|i: int, j: int|
            0 <= i < j < last_lines(entries).len() ==> (#[trigger] symbol_of(
                last_lines(entries)[i],
            )) == (#[trigger] symbol_of(last_lines(entries)[j])) || before(
                symbol_of(last_lines(entries)[i])->0,
                symbol_of(last_lines(entries)[j])->0,
            ),
    decreases entries.len(),
{
    if entries.len() > 0 {
        let init = entries.drop_last();
        let last = entries.last();
        let first = last_lines(init);
        let part = last.state.finish(last.symbol).lines;
        let all = last_lines(entries);
        assert(forall|i: int| 0 <= i < init.len() ==> init[i] == entries[i]);
        assert(ascending(init));
        lemma_last_lines_ascend(init);
        assert forall|i: int| 0 <= i < part.len() implies symbol_of(#[trigger] part[i]) == Some(
            last.symbol,
        ) by {}
        assert(entries[entries.len() - 1] == last);
        assert forall|i: int| 0 <= i < all.len() implies exists|e: int|
            0 <= e < entries.len() && symbol_of(#[trigger] all[i]) == Some(
                (#[trigger] entries[e]).symbol,
            ) by {
            if i < first.len() {
                assert(all[i] == first[i]);
                let e = choose|e: int|
                    0 <= e < init.len() && symbol_of(first[i]) == Some((#[trigger] init[e]).symbol);
                assert(entries[e] == init[e]);
            } else {
                assert(all[i] == part[i - first.len()]);
            }
        }
        assert forall|i: int, j: int| 0 <= i < j < all.len() implies (#[trigger] symbol_of(all[i]))
            == (#[trigger] symbol_of(all[j])) || before(
            symbol_of(all[i])->0,
            symbol_of(all[j])->0,
        ) by {
            if j < first.len() {
                assert(all[i] == first[i] && all[j] == first[j]);
                assert(symbol_of(first[i]) is Some && symbol_of(first[j]) is Some);
            } else {
                assert(all[j] == part[j - first.len()]);
                if i < first.len() {
                    assert(all[i] == first[i]);
                    let e = choose|e: int|
                        0 <= e < init.len() && symbol_of(first[i]) == Some(
                            (#[trigger] init[e]).symbol,
                        );
                    assert(entries[e] == init[e]);
                    assert(before(entries[e].symbol, entries[entries.len() - 1].symbol));
                } else {
                    assert(all[i] == part[i - first.len()]);
                }
            }
        }
    }
}

} // verus!
