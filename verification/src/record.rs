//! What the aggregation puts out, in order.
use vstd::prelude::*;

use crate::hour::{HourAgg, HourSums};
use crate::minute::{MinuteBar, MinuteFinal};
use crate::rsi::RsiStep;
use crate::summary::{Summary, Totals};

verus! {

/// A piece of output as the models see it.
pub enum Line {
    Minute { symbol: Seq<char>, bar: MinuteBar, rsi14: RsiStep },
    Hour { symbol: Seq<char>, hour: HourSums },
    Summary { totals: Totals },
}

/// The symbol that a line is about.
pub open spec fn symbol_of(line: Line) -> Option<Seq<char>> {
    match line {
        Line::Minute { symbol, .. } => Some(symbol),
        Line::Hour { symbol, .. } => Some(symbol),
        Line::Summary { .. } => None,
    }
}

/// A piece of output.
#[derive(Debug)]
pub enum Record {
    /// A finished minute of a symbol.
    Minute { symbol: String, bar: MinuteFinal },
    /// A finished hour of a symbol.
    Hour { symbol: String, hour: HourAgg },
    /// The totals at the end.
    Summary { summary: Summary },
}

impl View for Record {
    type V = Line;

    open spec fn view(&self) -> Line {
        match self {
            Record::Minute { symbol, bar } => Line::Minute {
                symbol: symbol@,
                bar: bar@,
                rsi14: bar.rsi14,
            },
            Record::Hour { symbol, hour } => Line::Hour { symbol: symbol@, hour: hour@ },
            Record::Summary { summary } => Line::Summary { totals: summary@ },
        }
    }
}

/// A whole output as the models see it.
pub open spec fn lines(records: Seq<Record>) -> Seq<Line> {
    Seq::new(records.len(), |i: int| records[i]@)
}

/// Putting out one more record adds its line at the end.
pub proof fn lemma_lines_push(records: Seq<Record>, record: Record)
    ensures
        lines(records.push(record)) == lines(records).push(record@),
{
    assert(lines(records.push(record)) =~= lines(records).push(record@));
}

/// A record is seen as the line that shows its symbol and what it holds.
pub proof fn law_records_are_seen_as_they_are(record: Record)
    ensures
        record matches Record::Minute { symbol, bar } ==> record@ == (Line::Minute {
            symbol: symbol@,
            bar: bar@,
            rsi14: bar.rsi14,
        }),
        record matches Record::Hour { symbol, hour } ==> record@ == (Line::Hour {
            symbol: symbol@,
            hour: hour@,
        }),
        record matches Record::Summary { summary } ==> record@ == (Line::Summary {
            totals: summary@,
        }),
{
}

/// Records are seen as one line each, in order.
pub proof fn law_records_are_seen_in_order(records: Seq<Record>, i: int)
    ensures
        lines(records).len() == records.len(),
        0 <= i < records.len() ==> lines(records)[i] == records[i]@,
{
}

} // verus!
