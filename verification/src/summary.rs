//! Totals over all trades.
use vstd::prelude::*;

use crate::decimal::{decimal, push_decimal};
use crate::hour::lemma_product_fits;
use crate::parse::{ParsedTick, Tick};

verus! {

/// The totals as the models see them.
pub struct Totals {
    /// Sum of volumes.
    pub volume: nat,
    /// Sum of price times volume.
    pub pv: nat,
}

impl Totals {
    /// The totals of no trade.
    pub open spec fn zero() -> Totals {
        Totals { volume: 0, pv: 0 }
    }

    /// The totals with one more trade.
    pub open spec fn with(self, tick: Tick) -> Totals {
        Totals {
            volume: self.volume + tick.volume as nat,
            pv: self.pv + tick.price as nat * tick.volume as nat,
        }
    }

    /// The totals with one more trade are within the machine's numbers.
    pub open spec fn can_take(self, tick: Tick) -> bool {
        self.with(tick).volume <= u128::MAX && self.with(tick).pv <= u128::MAX
    }
}

/// Totals over all trades.
#[derive(Debug, Clone, Copy)]
pub struct Summary {
    pub total_volume: u128,
    pub total_pv: u128,
}

impl View for Summary {
    type V = Totals;

    open spec fn view(&self) -> Totals {
        Totals { volume: self.total_volume as nat, pv: self.total_pv as nat }
    }
}

impl Default for Summary {
    fn default() -> (summary: Summary)
        ensures
            summary@ == Totals::zero(),
    {
        Summary { total_volume: 0, total_pv: 0 }
    }
}

impl Summary {
    /// Takes one more trade into the totals.
    pub fn record_parsed_tick(&mut self, tick: &ParsedTick<'_>)
        requires
            old(self)@.can_take(tick@),
        ensures
            final(self)@ == old(self)@.with(tick@),
    {
        self.total_volume = self.total_volume + tick.volume as u128;
        proof {
            lemma_product_fits(tick.price as nat, tick.volume as nat);
        }
        self.total_pv = self.total_pv + (tick.price as u128) * (tick.volume as u128);
    }

    /// Whether the totals stay within the machine's numbers with one more trade.
    pub fn has_room(&self, tick: &ParsedTick<'_>) -> (room: bool)
        ensures
            room == self@.can_take(tick@),
    {
        proof {
            lemma_product_fits(tick.price as nat, tick.volume as nat);
        }
        let pv: u128 = (tick.price as u128) * (tick.volume as u128);
        tick.volume as u128 <= u128::MAX - self.total_volume && pv <= u128::MAX - self.total_pv
    }

    /// The totals ready to be shown.
    pub fn as_output(&self) -> (output: SummaryOutput<'_>)
        ensures
            output.summary == self,
    {
        SummaryOutput { summary: self }
    }
}

/// The two summary lines.
pub open spec fn summary_text(totals: Totals) -> Seq<char> {
    "SUMMARY,TOTAL_VOLUME,"@ + decimal(totals.volume) + seq!['\n'] + "SUMMARY,TOTAL_TRADED_VALUE,"@
        + decimal(totals.pv) + seq!['\n']
}

/// Totals ready to be shown.
#[derive(Debug, Clone, Copy)]
pub struct SummaryOutput<'a> {
    pub summary: &'a Summary,
}

impl<'a> SummaryOutput<'a> {
    /// The two summary lines.
    pub fn text(&self) -> (text: String)
        ensures
            text@ == summary_text(self.summary@),
    {
        let mut text = String::new();
        text.append("SUMMARY,TOTAL_VOLUME,");
        push_decimal(&mut text, self.summary.total_volume);
        text.push('\n');
        text.append("SUMMARY,TOTAL_TRADED_VALUE,");
        push_decimal(&mut text, self.summary.total_pv);
        text.push('\n');
        assert(text@ =~= summary_text(self.summary@));
        text
    }
}

/// Totals are seen as what their fields hold.
pub proof fn law_totals_are_seen_as_they_are(summary: Summary)
    ensures
        summary@.volume == summary.total_volume,
        summary@.pv == summary.total_pv,
{
}

/// The totals start at nothing, and a trade adds its volume, and its price for
/// each unit of it.
pub proof fn law_trade_adds_to_totals(totals: Totals, tick: Tick)
    ensures
        Totals::zero().volume == 0 && Totals::zero().pv == 0,
        totals.with(tick).volume - totals.volume == tick.volume,
        totals.with(tick).pv - totals.pv == tick.price * tick.volume,
        totals.can_take(tick) <==> totals.volume + tick.volume <= u128::MAX && totals.pv
            + tick.price * tick.volume <= u128::MAX,
{
}

} // verus!
