//! Trade-tick aggregation: minute bars, hourly volume- and time-weighted sums,
//! and running totals, computed from a CSV stream of executed trades.
use vstd::prelude::*;

pub mod agg;
pub mod balance;
pub mod bytes;
pub mod calls;
pub mod clock;
pub mod closes;
pub mod columns;
pub mod decimal;
pub mod error;
pub mod history;
pub mod hour;
pub mod lines;
pub mod messages;
pub mod minute;
pub mod moments;
pub mod order;
pub mod parse;
pub mod record;
pub mod room;
pub mod rows;
pub mod rsi;
pub mod split;
pub mod steady;
pub mod stream;
pub mod summary;
pub mod symbol;
pub mod table;
pub mod times;
pub mod utf8;
pub mod weighing;
pub mod whole;
pub mod wording;

verus! {

} // verus!
