//! Why a line of the input is refused.
use vstd::prelude::*;

use crate::clock::{date_text, time_text_msec, DateKey, HmsMsec};
use crate::decimal::{decimal, push_decimal};
use crate::parse::ParseError;

verus! {

/// The reason as the models see it.
pub enum Fault {
    Parse { line_num: nat, source: ParseError },
    OutOfOrderDate { symbol: Seq<char>, got: u32, current: u32 },
    OutOfOrderTime { symbol: Seq<char>, date_key: u32, got_ms: u32, current_ms: u32 },
}

/// Why a line of the input is refused.
#[derive(Debug)]
pub enum AppError {
    Parse { line_num: usize, source: ParseError },
    OutOfOrderDate { symbol: String, got: u32, current: u32 },
    OutOfOrderTime { symbol: String, date_key: u32, got_ms: u32, current_ms: u32 },
}

impl View for AppError {
    type V = Fault;

    open spec fn view(&self) -> Fault {
        match self {
            AppError::Parse { line_num, source } => Fault::Parse {
                line_num: *line_num as nat,
                source: *source,
            },
            AppError::OutOfOrderDate { symbol, got, current } => Fault::OutOfOrderDate {
                symbol: symbol@,
                got: *got,
                current: *current,
            },
            AppError::OutOfOrderTime { symbol, date_key, got_ms, current_ms } => {
                Fault::OutOfOrderTime {
                    symbol: symbol@,
                    date_key: *date_key,
                    got_ms: *got_ms,
                    current_ms: *current_ms,
                }
            },
        }
    }
}

impl Fault {
    /// The message for this reason.
    pub open spec fn message(self) -> Seq<char> {
        match self {
            Fault::Parse { line_num, source } => "line "@ + decimal(line_num) + ": "@
                + source.spec_message(),
            Fault::OutOfOrderDate { symbol, got, current } => "out-of-order date for symbol="@
                + symbol + ": "@ + date_text(got as nat) + " < "@ + date_text(current as nat),
            Fault::OutOfOrderTime { symbol, date_key, got_ms, current_ms } => {
                "out-of-order timestamp for symbol="@ + symbol + ", date="@ + date_text(
                    date_key as nat,
                ) + ": "@ + time_text_msec(got_ms as nat) + " < "@ + time_text_msec(
                    current_ms as nat,
                )
            },
        }
    }
}

impl AppError {
    /// The message for this reason.
    pub fn message(&self) -> (text: String)
        ensures
            text@ == self@.message(),
    {
        let mut text = String::new();
        match self {
            AppError::Parse { line_num, source } => {
                text.append("line ");
                push_decimal(&mut text, *line_num as u128);
                text.append(": ");
                text.append(source.message().as_str());
            },
            AppError::OutOfOrderDate { symbol, got, current } => {
                text.append("out-of-order date for symbol=");
                text.append(symbol.as_str());
                text.append(": ");
                DateKey(*got).push_text(&mut text);
                text.append(" < ");
                DateKey(*current).push_text(&mut text);
            },
            AppError::OutOfOrderTime { symbol, date_key, got_ms, current_ms } => {
                text.append("out-of-order timestamp for symbol=");
                text.append(symbol.as_str());
                text.append(", date=");
                DateKey(*date_key).push_text(&mut text);
                text.append(": ");
                HmsMsec(*got_ms).push_text(&mut text);
                text.append(" < ");
                HmsMsec(*current_ms).push_text(&mut text);
            },
        }
        assert(text@ =~= self@.message());
        text
    }
}

/// A reason is seen as what its fields hold.
pub proof fn law_reasons_are_seen_as_they_are(e: AppError)
    ensures
        e matches AppError::Parse { line_num, source } ==> e@ == (Fault::Parse {
            line_num: line_num as nat,
            source,
        }),
        e matches AppError::OutOfOrderDate { symbol, got, current } ==> e@ == (
        Fault::OutOfOrderDate { symbol: symbol@, got, current }),
        e matches AppError::OutOfOrderTime { symbol, date_key, got_ms, current_ms } ==> e@ == (
        Fault::OutOfOrderTime { symbol: symbol@, date_key, got_ms, current_ms }),
{
}

} // verus!
