//! From a stream of bytes, which comes in chunks of any size, to lines.
use vstd::prelude::*;

use crate::agg::{AggState, Aggregator};
use crate::error::{AppError, Fault};
use crate::parse::{read_line, ParseError, ParsedTick};
use crate::record::{lines, Line, Record};
use crate::split::{
    lemma_last_piece_is_whole, lemma_pieces_concat, lemma_pieces_nonempty, lemma_pieces_push,
    pieces,
};

verus! {

/// The byte that ends a line.
pub const NEWLINE: u8 = 10;

/// Why the aggregation cannot go on, as the models see it.
pub enum Halt {
    Refused(Fault),
    Overflow { line_num: nat },
}

/// Why the aggregation cannot go on.
#[derive(Debug)]
pub enum Stop {
    /// A line is refused.
    Refused(AppError),
    /// With the trade on this line a sum would leave the machine's numbers.
    Overflow { line_num: usize },
}

impl View for Stop {
    type V = Halt;

    open spec fn view(&self) -> Halt {
        match self {
            Stop::Refused(e) => Halt::Refused(e@),
            Stop::Overflow { line_num } => Halt::Overflow { line_num: *line_num as nat },
        }
    }
}

/// What a result says has stopped the aggregation.
pub open spec fn halt_of(res: Result<(), Stop>) -> Option<Halt> {
    match res {
        Ok(()) => None,
        Err(stop) => Some(stop@),
    }
}

/// What taking lines one after the other has come to.
pub struct Run {
    pub agg: AggState,
    pub lines: Seq<Line>,
    /// How many lines were taken, with the one that stopped it, if any.
    pub taken: nat,
    pub halt: Option<Halt>,
}

/// What the line with the number `line_num` does.
#[verifier::opaque]
pub open spec fn on_row(agg: AggState, row: Seq<u8>, line_num: nat) -> Run {
    if !agg.has_room_parsed(read_line(row)) {
        Run { agg, lines: Seq::empty(), taken: 1, halt: Some(Halt::Overflow { line_num }) }
    } else {
        let done = agg.on_line(row, line_num);
        Run {
            agg: done.agg,
            lines: done.lines,
            taken: 1,
            halt: match done.fault {
                Some(fault) => Some(Halt::Refused(fault)),
                None => None,
            },
        }
    }
}

/// What the lines `rows` do, where `line_num` lines came before them: each is
/// taken in turn, up to the first that stops it.
pub open spec fn run(agg: AggState, rows: Seq<Seq<u8>>, line_num: nat) -> Run
    decreases rows.len(),
{
    if rows.len() == 0 {
        Run { agg, lines: Seq::empty(), taken: 0, halt: None }
    } else {
        let init = run(agg, rows.drop_last(), line_num);
        if init.halt is Some {
            init
        } else {
            let last = on_row(init.agg, rows.last(), line_num + rows.len());
            Run {
                agg: last.agg,
                lines: init.lines + last.lines,
                taken: rows.len(),
                halt: last.halt,
            }
        }
    }
}

/// Lines may be taken in two goes.
pub proof fn lemma_run_concat(agg: AggState, a: Seq<Seq<u8>>, b: Seq<Seq<u8>>, line_num: nat)
    ensures
        ({
            let first = run(agg, a, line_num);
            let second = run(first.agg, b, line_num + a.len());
            run(agg, a + b, line_num) == if first.halt is Some {
                first
            } else {
                Run {
                    agg: second.agg,
                    lines: first.lines + second.lines,
                    taken: a.len() + second.taken,
                    halt: second.halt,
                }
            }
        }),
    decreases b.len(),
{
    let first = run(agg, a, line_num);
    lemma_run_taken(agg, a, line_num);
    if b.len() == 0 {
        assert(a + b =~= a);
        assert(first.lines + Seq::<Line>::empty() =~= first.lines);
    } else {
        let b0 = b.drop_last();
        lemma_run_concat(agg, a, b0, line_num);
        lemma_run_taken(first.agg, b0, line_num + a.len());
        assert((a + b).drop_last() =~= a + b0);
        let second0 = run(first.agg, b0, line_num + a.len());
        if first.halt is None && second0.halt is None {
            let last = on_row(second0.agg, b.last(), line_num + (a + b).len());
            assert(first.lines + second0.lines + last.lines =~= first.lines + (second0.lines
                + last.lines));
        }
    }
}

/// All lines are taken unless one stops it.
pub proof fn lemma_run_taken(agg: AggState, rows: Seq<Seq<u8>>, line_num: nat)
    ensures
        run(agg, rows, line_num).taken <= rows.len(),
        run(agg, rows, line_num).halt is None ==> run(agg, rows, line_num).taken == rows.len(),
    decreases rows.len(),
{
    if rows.len() > 0 {
        lemma_run_taken(agg, rows.drop_last(), line_num);
    }
}

/// The first line that is refused, or for which there is no room, stops it:
/// what the lines before it did stands, that line does nothing, and where the
/// reason holds a line number it is that line's, counted from one.
pub proof fn law_first_bad_line_stops(agg: AggState, rows: Seq<Seq<u8>>, line_num: nat)
    ensures
        run(agg, rows, line_num).halt matches Some(halt) ==> {
            let done = run(agg, rows, line_num);
            let good = run(agg, rows.take(done.taken - 1), line_num);
            &&& 1 <= done.taken <= rows.len()
            &&& good.halt is None
            &&& done.agg == good.agg
            &&& done.lines == good.lines
            &&& halt matches Halt::Overflow { line_num: n } ==> n == line_num + done.taken
            &&& halt matches Halt::Refused(Fault::Parse { line_num: n, .. }) ==> n == line_num
                + done.taken
        },
    decreases rows.len(),
{
    reveal(on_row);
    if rows.len() > 0 {
        let init = run(agg, rows.drop_last(), line_num);
        law_first_bad_line_stops(agg, rows.drop_last(), line_num);
        if init.halt is Some {
            assert(rows.take(init.taken - 1) =~= rows.drop_last().take(init.taken - 1));
        } else {
            assert(rows.take(rows.len() - 1) =~= rows.drop_last());
            assert(init.lines + Seq::<Line>::empty() =~= init.lines);
        }
    }
}

/// A stream between two chunks, as the models see it.
pub struct StreamState {
    pub agg: AggState,
    /// The beginning of the line that the next chunk carries on.
    pub carry: Seq<u8>,
    /// How many lines have ended.
    pub line_num: nat,
}

/// What a chunk, or the end of the input, does.
pub struct Fed {
    pub stream: StreamState,
    pub lines: Seq<Line>,
    pub halt: Option<Halt>,
}

impl StreamState {
    /// Before the first byte.
    pub open spec fn fresh() -> StreamState {
        StreamState { agg: AggState::fresh(), carry: Seq::empty(), line_num: 0 }
    }

    /// What is carried over holds no end of a line.
    pub open spec fn wf(self) -> bool {
        pieces(self.carry, NEWLINE).len() == 1
    }

    /// The lines that the chunk ends, and what is left after the last of them.
    pub open spec fn rows(self, chunk: Seq<u8>) -> Seq<Seq<u8>> {
        pieces(self.carry + chunk, NEWLINE)
    }

    /// What a chunk does: every line that it ends is taken, and the rest is
    /// carried over. Once the aggregation has stopped, nothing is.
    pub open spec fn fed(self, chunk: Seq<u8>) -> Fed {
        let rows = self.rows(chunk);
        let done = run(self.agg, rows.drop_last(), self.line_num);
        Fed {
            stream: StreamState {
                agg: done.agg,
                carry: if done.halt is Some {
                    Seq::empty()
                } else {
                    rows.last()
                },
                line_num: self.line_num + done.taken,
            },
            lines: done.lines,
            halt: done.halt,
        }
    }

    /// The last line, where the input does not end with the end of a line.
    pub open spec fn last_row(self) -> Seq<Seq<u8>> {
        if self.carry.len() > 0 {
            seq![self.carry]
        } else {
            Seq::empty()
        }
    }

    /// What the end of the input does: the last line is taken, and unless that
    /// stops it, everything current and the totals are put out.
    pub open spec fn ended(self) -> Fed {
        let done = run(self.agg, self.last_row(), self.line_num);
        Fed {
            stream: StreamState {
                agg: if done.halt is Some {
                    done.agg
                } else {
                    AggState { entries: Seq::empty(), totals: done.agg.totals }
                },
                carry: Seq::empty(),
                line_num: self.line_num + done.taken,
            },
            lines: if done.halt is Some {
                done.lines
            } else {
                done.lines + done.agg.at_end()
            },
            halt: done.halt,
        }
    }

    /// What chunks do one after the other, up to the first that stops it.
    pub open spec fn fed_all(self, chunks: Seq<Seq<u8>>) -> Fed
        decreases chunks.len(),
    {
        if chunks.len() == 0 {
            Fed { stream: self, lines: Seq::empty(), halt: None }
        } else {
            let init = self.fed_all(chunks.drop_last());
            if init.halt is Some {
                init
            } else {
                let last = init.stream.fed(chunks.last());
                Fed { lines: init.lines + last.lines, ..last }
            }
        }
    }
}

/// The bytes of all chunks, one after the other.
pub open spec fn joined(chunks: Seq<Seq<u8>>) -> Seq<u8>
    decreases chunks.len(),
{
    if chunks.len() == 0 {
        Seq::empty()
    } else {
        joined(chunks.drop_last()) + chunks.last()
    }
}

/// A single piece is the whole.
proof fn lemma_single_piece(s: Seq<u8>)
    requires
        pieces(s, NEWLINE).len() == 1,
    ensures
        pieces(s, NEWLINE) == seq![s],
    decreases s.len(),
{
    if s.len() > 0 {
        lemma_pieces_nonempty(s.drop_last(), NEWLINE);
        assert(s.last() != NEWLINE);
        lemma_single_piece(s.drop_last());
        assert(s =~= s.drop_last().push(s.last()));
        assert(pieces(s, NEWLINE) =~= seq![s]);
    } else {
        assert(s =~= Seq::<u8>::empty());
    }
}

/// What is carried over never holds the end of a line.
pub proof fn lemma_fed_wf(stream: StreamState, chunk: Seq<u8>)
    ensures
        stream.fed(chunk).stream.wf(),
{
    lemma_last_piece_is_whole(stream.carry + chunk, NEWLINE);
}

/// It makes no difference whether a chunk comes whole or in two parts.
pub proof fn law_chunk_in_two(stream: StreamState, a: Seq<u8>, b: Seq<u8>)
    ensures
        stream.fed(a).halt is Some ==> {
            &&& stream.fed(a + b).halt == stream.fed(a).halt
            &&& stream.fed(a + b).lines == stream.fed(a).lines
            &&& stream.fed(a + b).stream == stream.fed(a).stream
        },
        stream.fed(a).halt is None ==> {
            let second = stream.fed(a).stream.fed(b);
            &&& stream.fed(a + b).halt == second.halt
            &&& stream.fed(a + b).lines == stream.fed(a).lines + second.lines
            &&& stream.fed(a + b).stream == second.stream
        },
{
    let first = stream.rows(a);
    let open = first.last();
    let second = pieces(open + b, NEWLINE);
    lemma_pieces_nonempty(stream.carry + a, NEWLINE);
    lemma_pieces_nonempty(open + b, NEWLINE);
    assert(stream.carry + (a + b) =~= (stream.carry + a) + b);
    lemma_pieces_concat(stream.carry + a, b, NEWLINE);
    let whole = stream.rows(a + b);
    assert(whole.drop_last() =~= first.drop_last() + second.drop_last());
    lemma_run_concat(stream.agg, first.drop_last(), second.drop_last(), stream.line_num);
    lemma_run_taken(stream.agg, first.drop_last(), stream.line_num);
}

/// The output, and where it stops, depend on the bytes of the input alone and
/// not on the chunks in which they come.
pub proof fn law_any_chunks(stream: StreamState, chunks: Seq<Seq<u8>>)
    requires
        stream.wf(),
    ensures
        stream.fed_all(chunks) == stream.fed(joined(chunks)),
    decreases chunks.len(),
{
    if chunks.len() == 0 {
        assert(stream.carry + Seq::<u8>::empty() =~= stream.carry);
        lemma_single_piece(stream.carry);
        assert(seq![stream.carry].drop_last() =~= Seq::<Seq<u8>>::empty());
    } else {
        law_any_chunks(stream, chunks.drop_last());
        law_chunk_in_two(stream, joined(chunks.drop_last()), chunks.last());
    }
}

/// Takes one line.
fn take_row(agg: &mut Aggregator, row: &[u8], line_num: usize, out: &mut Vec<Record>) -> (res:
    Result<(), Stop>)
    requires
        old(agg).wf(),
    ensures
        final(agg).wf(),
        final(agg)@ == on_row(old(agg)@, row@, line_num as nat).agg,
        lines(final(out)@) == lines(old(out)@) + on_row(old(agg)@, row@, line_num as nat).lines,
        halt_of(res) == on_row(old(agg)@, row@, line_num as nat).halt,
{
    reveal(on_row);
    let parsed: Result<Option<ParsedTick<'_>>, ParseError> = ParsedTick::parse(row);
    if !agg.room_for(&parsed) {
        assert(lines(out@) =~= lines(out@) + Seq::<Line>::empty());
        return Err(Stop::Overflow { line_num });
    }
    match agg.process_parsed(parsed, line_num, out) {
        Ok(()) => Ok(()),
        Err(e) => Err(Stop::Refused(e)),
    }
}

/// The aggregation of a stream of bytes.
#[derive(Debug)]
pub struct TickStream {
    agg: Aggregator,
    carry: Vec<u8>,
    line_num: usize,
}

impl View for TickStream {
    type V = StreamState;

    closed spec fn view(&self) -> StreamState {
        StreamState { agg: self.agg@, carry: self.carry@, line_num: self.line_num as nat }
    }
}

/// Appends `tail` to `bytes`.
fn append_bytes(bytes: &mut Vec<u8>, tail: &[u8])
    ensures
        final(bytes)@ == old(bytes)@ + tail@,
{
    bytes.extend_from_slice(tail);
    assert(bytes@ =~= old(bytes)@ + tail@);
}

impl TickStream {
    /// The aggregation is well-formed and what is carried over holds no end of a line.
    pub closed spec fn wf(self) -> bool {
        self.agg.wf() && self@.wf()
    }

    /// A stream before its first byte.
    pub fn new() -> (stream: TickStream)
        ensures
            stream.wf(),
            stream@ == StreamState::fresh(),
    {
        TickStream { agg: Aggregator::new(), carry: Vec::with_capacity(1024), line_num: 0 }
    }

    /// How many lines have ended.
    pub fn line_num(&self) -> (line_num: usize)
        ensures
            line_num == self@.line_num,
    {
        self.line_num
    }

    /// Takes the line that `part` ends.
    fn end_line(&mut self, part: &[u8], out: &mut Vec<Record>) -> (res: Result<(), Stop>)
        requires
            old(self).agg.wf(),
            old(self).line_num < usize::MAX,
        ensures
            final(self).agg.wf(),
            final(self).carry@ == Seq::<u8>::empty(),
            final(self).line_num == old(self).line_num + 1,
            ({
                let step = on_row(
                    old(self).agg@,
                    old(self).carry@ + part@,
                    final(self).line_num as nat,
                );
                &&& final(self).agg@ == step.agg
                &&& lines(final(out)@) == lines(old(out)@) + step.lines
                &&& halt_of(res) == step.halt
            }),
    {
        self.line_num = self.line_num + 1;
        if self.carry.is_empty() {
            assert(self.carry@ + part@ =~= part@);
            assert(self.carry@ =~= Seq::<u8>::empty());
            take_row(&mut self.agg, part, self.line_num, out)
        } else {
            append_bytes(&mut self.carry, part);
            let res: Result<(), Stop> = take_row(
                &mut self.agg,
                self.carry.as_slice(),
                self.line_num,
                out,
            );
            self.carry.clear();
            res
        }
    }

    /// Takes the next chunk of the input.
    pub fn feed(&mut self, buf: &[u8], out: &mut Vec<Record>) -> (res: Result<(), Stop>)
        requires
            old(self).wf(),
            old(self)@.line_num + old(self)@.rows(buf@).len() - 1 <= usize::MAX,
        ensures
            final(self).wf(),
            final(self)@ == old(self)@.fed(buf@).stream,
            lines(final(out)@) == lines(old(out)@) + old(self)@.fed(buf@).lines,
            halt_of(res) == old(self)@.fed(buf@).halt,
    {
        let ghost before = self@;
        let mut start: usize = 0;
        let mut i: usize = 0;
        proof {
            assert(before.carry + buf@.take(0) =~= before.carry);
            assert(buf@.subrange(0, 0) =~= Seq::<u8>::empty());
            lemma_single_piece(before.carry);
            assert(before.carry + buf@.subrange(0, 0) =~= before.carry);
            assert(seq![before.carry].drop_last() =~= Seq::<Seq<u8>>::empty());
            assert(lines(out@) =~= lines(old(out)@) + Seq::<Line>::empty());
        }
        while i < buf.len()
            invariant
                before == old(self)@,
                before.wf(),
                before.line_num + before.rows(buf@).len() - 1 <= usize::MAX,
                self.agg.wf(),
                start <= i <= buf@.len(),
                ({
                    let rows = before.rows(buf@.take(i as int));
                    let done = run(before.agg, rows.drop_last(), before.line_num);
                    &&& rows.len() >= 1
                    &&& rows.last() == self.carry@ + buf@.subrange(start as int, i as int)
                    &&& done.halt is None
                    &&& done.agg == self.agg@
                    &&& self.line_num == before.line_num + rows.len() - 1
                    &&& lines(out@) == lines(old(out)@) + done.lines
                }),
            decreases buf@.len() - i,
        {
            let ghost rows = before.rows(buf@.take(i as int));
            let ghost done = run(before.agg, rows.drop_last(), before.line_num);
            let ghost next_rows = before.rows(buf@.take(i + 1));
            let ghost carried = self.carry@;
            proof {
                assert(before.carry + buf@.take(i + 1) =~= (before.carry + buf@.take(
                    i as int,
                )).push(buf@[i as int]));
                lemma_pieces_push(before.carry + buf@.take(i as int), buf@[i as int], NEWLINE);
                assert(buf@.subrange(start as int, i + 1) =~= buf@.subrange(
                    start as int,
                    i as int,
                ).push(buf@[i as int]));
                assert(carried + buf@.subrange(start as int, i + 1) =~= rows.last().push(
                    buf@[i as int],
                ));
                lemma_rows_prefix(before, buf@, i + 1);
            }
            if buf[i] == NEWLINE {
                let ghost step = on_row(done.agg, rows.last(), before.line_num + rows.len());
                proof {
                    assert(next_rows.drop_last() =~= rows);
                    assert(lines(out@) + step.lines =~= lines(old(out)@) + (done.lines
                        + step.lines));
                }
                let res: Result<(), Stop> = self.end_line(&buf[start..i], out);
                if res.is_err() {
                    proof {
                        let whole = before.rows(buf@).drop_last();
                        let rest = whole.skip(rows.len() as int);
                        assert(whole =~= rows + rest);
                        lemma_run_concat(before.agg, rows, rest, before.line_num);
                    }
                    return res;
                }
                start = i + 1;
                assert(self.carry@ + buf@.subrange(start as int, i + 1) =~= Seq::<u8>::empty());
            } else {
                assert(next_rows.drop_last() =~= rows.drop_last());
            }
            i += 1;
        }
        proof {
            assert(buf@.take(i as int) =~= buf@);
            lemma_run_taken(before.agg, before.rows(buf@).drop_last(), before.line_num);
            lemma_fed_wf(before, buf@);
        }
        append_bytes(&mut self.carry, &buf[start..buf.len()]);
        Ok(())
    }

    /// Ends the input.
    pub fn finish(&mut self, out: &mut Vec<Record>) -> (res: Result<(), Stop>)
        requires
            old(self).wf(),
            old(self)@.carry.len() > 0 ==> old(self)@.line_num < usize::MAX,
        ensures
            final(self).wf(),
            final(self)@ == old(self)@.ended().stream,
            lines(final(out)@) == lines(old(out)@) + old(self)@.ended().lines,
            halt_of(res) == old(self)@.ended().halt,
    {
        proof {
            let row = self@.last_row();
            if row.len() > 0 {
                assert(row.drop_last() =~= Seq::<Seq<u8>>::empty());
                assert(self.carry@ + Seq::<u8>::empty() =~= self.carry@);
                let step = on_row(self.agg@, self.carry@, (self.line_num + 1) as nat);
                assert(Seq::<Line>::empty() + step.lines =~= step.lines);
            }
            reveal_with_fuel(run, 2);
        }
        if !self.carry.is_empty() {
            let rest: &[u8] = &[];
            assert(rest@ =~= Seq::<u8>::empty());
            let res: Result<(), Stop> = self.end_line(rest, out);
            if res.is_err() {
                return res;
            }
        }
        assert(self.carry@ =~= Seq::<u8>::empty());
        self.agg.flush(out);
        assert(lines(out@) =~= lines(old(out)@) + old(self)@.ended().lines);
        Ok(())
    }
}

/// The lines that the first `i` bytes of a chunk end come first among those
/// that the whole chunk ends.
proof fn lemma_rows_prefix(stream: StreamState, chunk: Seq<u8>, i: int)
    requires
        0 <= i <= chunk.len(),
    ensures
        ({
            let head = stream.rows(chunk.take(i)).drop_last();
            let whole = stream.rows(chunk).drop_last();
            &&& stream.rows(chunk.take(i)).len() <= stream.rows(chunk).len()
            &&& head == whole.take(head.len() as int)
        }),
{
    let first = stream.carry + chunk.take(i);
    let rest = chunk.skip(i);
    assert(stream.carry + chunk =~= first + rest);
    lemma_pieces_concat(first, rest, NEWLINE);
    lemma_pieces_nonempty(first, NEWLINE);
    lemma_pieces_nonempty(pieces(first, NEWLINE).last() + rest, NEWLINE);
    let head = stream.rows(chunk.take(i)).drop_last();
    let whole = stream.rows(chunk).drop_last();
    assert(head =~= whole.take(head.len() as int));
}

/// What stops the aggregation is seen as what its fields hold.
pub proof fn law_stops_are_seen_as_they_are(stop: Stop)
    ensures
        stop matches Stop::Refused(e) ==> stop@ == Halt::Refused(e@),
        stop matches Stop::Overflow { line_num } ==> stop@ == (Halt::Overflow {
            line_num: line_num as nat,
        }),
        halt_of(Ok::<(), Stop>(())) is None,
        halt_of(Err::<(), Stop>(stop)) == Some(stop@),
{
}

/// The number of a line has no say in what it does: from whatever number lines
/// are counted, they are taken as far, put out the same and lead to the same
/// state.
pub proof fn law_numbers_have_no_say(agg: AggState, rows: Seq<Seq<u8>>, a: nat, b: nat)
    ensures
        run(agg, rows, a).agg == run(agg, rows, b).agg,
        run(agg, rows, a).lines == run(agg, rows, b).lines,
        run(agg, rows, a).taken == run(agg, rows, b).taken,
        run(agg, rows, a).halt is Some <==> run(agg, rows, b).halt is Some,
        run(agg, rows, a).halt matches Some(Halt::Overflow { .. }) <==> run(
            agg,
            rows,
            b,
        ).halt matches Some(Halt::Overflow { .. }),
    decreases rows.len(),
{
    reveal(on_row);
    if rows.len() > 0 {
        law_numbers_have_no_say(agg, rows.drop_last(), a, b);
    }
}

} // verus!
