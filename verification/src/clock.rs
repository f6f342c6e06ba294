//! Dates and times of day, and their text.
use vstd::prelude::*;

use crate::decimal::{push_zero_padded, zero_padded};

verus! {

/// Milliseconds in a second.
pub const MSEC_PER_SEC: u32 = 1_000;

/// Milliseconds in a minute.
pub const MSEC_PER_MIN: u32 = 60_000;

/// Milliseconds in an hour.
pub const MSEC_PER_HOUR: u32 = 3_600_000;

/// Milliseconds in a day.
pub const MSEC_PER_DAY: u32 = 86_400_000;

/// `YYYY-MM-DD` for the date with the number `YYYYMMDD`.
pub open spec fn date_text(date_key: nat) -> Seq<char> {
    zero_padded(date_key / 10_000, 4).push('-') + zero_padded((date_key / 100) % 100, 2).push('-')
        + zero_padded(date_key % 100, 2)
}

/// `hh:mm:ss` for a number of milliseconds since midnight.
pub open spec fn time_text(ms: nat) -> Seq<char> {
    zero_padded(ms / 3_600_000, 2).push(':') + zero_padded((ms / 60_000) % 60, 2).push(':')
        + zero_padded((ms / 1000) % 60, 2)
}

/// `hh:mm:ss.fff` for a number of milliseconds since midnight.
pub open spec fn time_text_msec(ms: nat) -> Seq<char> {
    time_text(ms).push('.') + zero_padded(ms % 1000, 3)
}

/// A date as the number `YYYYMMDD`.
#[derive(Debug, Clone, Copy, PartialEq, Eq, Structural)]
pub struct DateKey(pub u32);

impl DateKey {
    /// Appends the date as `YYYY-MM-DD`.
    pub fn push_text(&self, out: &mut String)
        ensures
            final(out)@ == old(out)@ + date_text(self.0 as nat),
    {
        let year: u32 = self.0 / 10_000;
        let month: u32 = (self.0 / 100) % 100;
        let day: u32 = self.0 % 100;
        push_zero_padded(out, year, 4);
        out.push('-');
        push_zero_padded(out, month, 2);
        out.push('-');
        push_zero_padded(out, day, 2);
        assert(out@ =~= old(out)@ + date_text(self.0 as nat));
    }
}

/// A time of day in milliseconds since midnight, shown to the second.
#[derive(Debug, Clone, Copy, PartialEq, Eq, Structural)]
pub struct Hms(pub u32);

impl Hms {
    /// Appends the time as `hh:mm:ss`.
    pub fn push_text(&self, out: &mut String)
        ensures
            final(out)@ == old(out)@ + time_text(self.0 as nat),
    {
        let total_sec: u32 = self.0 / 1000;
        let hh: u32 = total_sec / 3600;
        let mm: u32 = (total_sec % 3600) / 60;
        let ss: u32 = total_sec % 60;
        push_zero_padded(out, hh, 2);
        out.push(':');
        push_zero_padded(out, mm, 2);
        out.push(':');
        push_zero_padded(out, ss, 2);
        assert(mm == (self.0 / 60_000) % 60);
        assert(out@ =~= old(out)@ + time_text(self.0 as nat));
    }
}

/// A time of day in milliseconds since midnight, shown to the millisecond.
#[derive(Debug, Clone, Copy, PartialEq, Eq, Structural)]
pub struct HmsMsec(pub u32);

impl HmsMsec {
    /// Appends the time as `hh:mm:ss.fff`.
    pub fn push_text(&self, out: &mut String)
        ensures
            final(out)@ == old(out)@ + time_text_msec(self.0 as nat),
    {
        Hms(self.0).push_text(out);
        out.push('.');
        push_zero_padded(out, self.0 % 1000, 3);
        assert(out@ =~= old(out)@ + time_text_msec(self.0 as nat));
    }
}

} // verus!
