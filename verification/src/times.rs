//! The lines of a symbol, told from the times of its trades.
use vstd::prelude::*;

use crate::history::{
    all_of, bar_holds, hour_holds, in_hour, in_minute, in_order, law_bar_spans_its_trades,
    law_every_trade_is_shown_once, law_lines_tell_their_trades, lemma_caught_up,
    lemma_finish_lines, lemma_new_lines_current, not_after, on_date, replay, shown, shows_hour,
    shows_minute, whole_output,
};
use crate::hour::{hour_of, law_hour_holds_its_moments, law_same_hour, HourSums};
use crate::minute::{law_minute_holds_its_moments, law_same_minute, minute_of, MinuteBar};
use crate::parse::Tick;
use crate::record::Line;
use crate::weighing::{area_under, value_sum, volume_sum};

verus! {

/// The trades of a date from one moment to before another.
pub open spec fn between(ticks: Seq<Tick>, date_key: u32, from: int, to: int) -> Seq<Tick> {
    ticks.filter(|t: Tick| t.date_key == date_key && from <= t.ts_ms < to)
}

/// Two ways of selecting that agree on every trade select the same.
proof fn lemma_same_selection(
    ticks: Seq<Tick>,
    p: spec_fn(Tick) -> bool,
    q: spec_fn(Tick) -> bool,
)
    requires
        forall|t: Tick| #[trigger] p(t) == q(t),
    ensures
        ticks.filter(p) == ticks.filter(q),
    decreases ticks.len(),
{
    reveal(Seq::filter);
    if ticks.len() > 0 {
        lemma_same_selection(ticks.drop_last(), p, q);
        assert(p(ticks.last()) == q(ticks.last()));
    }
}

/// The trades of a minute are those from its start to sixty seconds later.
proof fn lemma_minute_between(ticks: Seq<Tick>, date_key: u32, start_ms: u32)
    requires
        start_ms as int % 60_000 == 0,
    ensures
        in_minute(ticks, date_key, start_ms) == between(
            ticks,
            date_key,
            start_ms as int,
            start_ms + 60_000,
        ),
{
    let p = |t: Tick| t.date_key == date_key && minute_of(t.ts_ms) == start_ms;
    let q = |t: Tick| t.date_key == date_key && start_ms <= t.ts_ms < start_ms + 60_000;
    assert forall|t: Tick| #[trigger] p(t) == q(t) by {
        law_minute_holds_its_moments(t.ts_ms);
    }
    lemma_same_selection(ticks, p, q);
}

/// The trades of an hour are those from its start to sixty minutes later.
pub proof fn lemma_hour_between(ticks: Seq<Tick>, date_key: u32, start_ms: u32)
    requires
        start_ms as int % 3_600_000 == 0,
    ensures
        in_hour(ticks, date_key, start_ms) == between(
            ticks,
            date_key,
            start_ms as int,
            start_ms + 3_600_000,
        ),
{
    let p = |t: Tick| t.date_key == date_key && hour_of(t.ts_ms) == start_ms;
    let q = |t: Tick| t.date_key == date_key && start_ms <= t.ts_ms < start_ms + 3_600_000;
    assert forall|t: Tick| #[trigger] p(t) == q(t) by {
        law_hour_holds_its_moments(t.ts_ms);
    }
    lemma_same_selection(ticks, p, q);
}

/// A selection that is not empty has a member, which is of the selection.
proof fn lemma_has_member(ticks: Seq<Tick>, p: spec_fn(Tick) -> bool)
    requires
        ticks.filter(p).len() > 0,
    ensures
        p(ticks.filter(p)[0]),
{
    ticks.lemma_filter_pred(p, 0);
}

/// The bar starts on a full minute, and tells of the trades from there to sixty
/// seconds later, of which there are some, the first and the last price, the
/// lowest and the highest, and all of their volume.
pub open spec fn tells_minute(ticks: Seq<Tick>, bar: MinuteBar) -> bool {
    let own = between(ticks, bar.date_key, bar.start_ms as int, bar.start_ms + 60_000);
    &&& bar.start_ms as int % 60_000 == 0
    &&& own.len() > 0
    &&& bar.open == own.first().price
    &&& bar.close == own.last().price
    &&& forall|i: int| 0 <= i < own.len() ==> bar.low <= (#[trigger] own[i]).price <= bar.high
    &&& exists|i: int| 0 <= i < own.len() && (#[trigger] own[i]).price == bar.low
    &&& exists|i: int| 0 <= i < own.len() && (#[trigger] own[i]).price == bar.high
    &&& bar.volume == volume_sum(own)
}

/// The hour starts on a full hour, and tells of the trades from there to sixty
/// minutes later, of which there are some, their traded value and volume, and
/// of the price in force on its date, millisecond by millisecond, the sum.
pub open spec fn tells_hour(ticks: Seq<Tick>, hour: HourSums) -> bool {
    let own = between(ticks, hour.date_key, hour.start_ms as int, hour.start_ms + 3_600_000);
    &&& hour.start_ms as int % 3_600_000 == 0
    &&& own.len() > 0
    &&& hour.pv == value_sum(own)
    &&& hour.vol == volume_sum(own)
    &&& hour.area == area_under(
        on_date(ticks, hour.date_key),
        hour.start_ms as int,
        hour.start_ms + 3_600_000,
    )
}

proof fn lemma_tells_minute(ticks: Seq<Tick>, bar: MinuteBar)
    requires
        bar_holds(ticks, bar),
    ensures
        tells_minute(ticks, bar),
{
    let (date_key, start_ms) = (bar.date_key, bar.start_ms);
    lemma_has_member(ticks, |t: Tick| t.date_key == date_key && minute_of(t.ts_ms) == start_ms);
    law_minute_holds_its_moments(in_minute(ticks, date_key, start_ms)[0].ts_ms);
    lemma_minute_between(ticks, date_key, start_ms);
    law_bar_spans_its_trades(in_minute(ticks, date_key, start_ms));
}

proof fn lemma_tells_hour(ticks: Seq<Tick>, hour: HourSums)
    requires
        hour_holds(ticks, hour),
    ensures
        tells_hour(ticks, hour),
{
    let (date_key, start_ms) = (hour.date_key, hour.start_ms);
    lemma_has_member(ticks, |t: Tick| t.date_key == date_key && hour_of(t.ts_ms) == start_ms);
    law_hour_holds_its_moments(in_hour(ticks, date_key, start_ms)[0].ts_ms);
    lemma_hour_between(ticks, date_key, start_ms);
}

/// A line tells of the trades within its times, and of no other.
pub open spec fn tells_its_time(symbol: Seq<char>, ticks: Seq<Tick>, line: Line) -> bool {
    match line {
        Line::Minute { symbol: shown, bar, .. } => shown == symbol && tells_minute(ticks, bar),
        Line::Hour { symbol: shown, hour } => shown == symbol && tells_hour(ticks, hour),
        Line::Summary { .. } => false,
    }
}

/// Every line that a symbol puts out tells of the trades within its times.
pub proof fn law_lines_tell_their_time(symbol: Seq<char>, ticks: Seq<Tick>)
    requires
        in_order(ticks),
        all_of(ticks, symbol),
    ensures
        forall|i: int|
            0 <= i < whole_output(symbol, ticks).len() ==> tells_its_time(
                symbol,
                ticks,
                #[trigger] whole_output(symbol, ticks)[i],
            ),
{
    law_lines_tell_their_trades(symbol, ticks);
    let all = whole_output(symbol, ticks);
    assert forall|i: int| 0 <= i < all.len() implies tells_its_time(
        symbol,
        ticks,
        #[trigger] all[i],
    ) by {
        match all[i] {
            Line::Minute { bar, .. } => {
                lemma_tells_minute(ticks, bar);
            },
            Line::Hour { hour, .. } => {
                lemma_tells_hour(ticks, hour);
            },
            Line::Summary { .. } => {},
        }
    }
}

/// The trade falls within the sixty seconds of a minute line.
pub open spec fn within_minute(line: Line, tick: Tick) -> bool {
    line matches Line::Minute { bar, .. } && bar.date_key == tick.date_key && bar.start_ms
        <= tick.ts_ms < bar.start_ms + 60_000
}

/// The trade falls within the sixty minutes of an hour line.
pub open spec fn within_hour(line: Line, tick: Tick) -> bool {
    line matches Line::Hour { hour, .. } && hour.date_key == tick.date_key && hour.start_ms
        <= tick.ts_ms < hour.start_ms + 3_600_000
}

/// Each trade falls within exactly one minute line and exactly one hour line of
/// its symbol.
pub proof fn law_each_trade_falls_within_its_lines(symbol: Seq<char>, ticks: Seq<Tick>, k: int)
    requires
        in_order(ticks),
        all_of(ticks, symbol),
        0 <= k < ticks.len(),
    ensures
        ({
            let all = whole_output(symbol, ticks);
            &&& exists|i: int| 0 <= i < all.len() && within_minute(#[trigger] all[i], ticks[k])
            &&& exists|i: int| 0 <= i < all.len() && within_hour(#[trigger] all[i], ticks[k])
            &&& forall|i: int, j: int|
                0 <= i < j < all.len() ==> !(within_minute(#[trigger] all[i], ticks[k])
                    && within_minute(#[trigger] all[j], ticks[k]))
            &&& forall|i: int, j: int|
                0 <= i < j < all.len() ==> !(within_hour(#[trigger] all[i], ticks[k])
                    && within_hour(#[trigger] all[j], ticks[k]))
        }),
{
    let all = whole_output(symbol, ticks);
    let tick = ticks[k];
    law_every_trade_is_shown_once(symbol, ticks);
    law_lines_tell_their_time(symbol, ticks);
    law_minute_holds_its_moments(tick.ts_ms);
    law_hour_holds_its_moments(tick.ts_ms);
    assert(shown(all, ticks[k]));
    assert forall|i: int| 0 <= i < all.len() implies within_minute(#[trigger] all[i], tick)
        == shows_minute(all[i], tick) && within_hour(all[i], tick) == shows_hour(all[i], tick) by {
        assert(tells_its_time(symbol, ticks, all[i]));
    }
    let i = choose|i: int| 0 <= i < all.len() && shows_minute(#[trigger] all[i], tick);
    assert(within_minute(all[i], tick));
    let j = choose|j: int| 0 <= j < all.len() && shows_hour(#[trigger] all[j], tick);
    assert(within_hour(all[j], tick));
}

/// What a trade brings out, in this order. On another date than the last trade's:
/// that one's minute and then its hour. On the same date but in another hour:
/// its hour and then its minute. In the same hour but another minute: its
/// minute. In the same minute, and for the first trade: nothing.
pub proof fn law_lines_at_a_trade(symbol: Seq<char>, ticks: Seq<Tick>, tick: Tick)
    requires
        in_order(ticks.push(tick)),
        all_of(ticks.push(tick), symbol),
    ensures
        ({
            let new = replay(ticks).state.record(tick).lines;
            let last = ticks.last();
            let same_hour = last.ts_ms as int / 3_600_000 == tick.ts_ms as int / 3_600_000;
            let same_minute = last.ts_ms as int / 60_000 == tick.ts_ms as int / 60_000;
            if ticks.len() == 0 {
                new.len() == 0
            } else if last.date_key != tick.date_key {
                new.len() == 2 && within_minute(new[0], last) && within_hour(new[1], last)
            } else if !same_hour {
                new.len() == 2 && within_hour(new[0], last) && within_minute(new[1], last)
            } else if !same_minute {
                new.len() == 1 && within_minute(new[0], last)
            } else {
                new.len() == 0
            }
        }),
{
    let whole = ticks.push(tick);
    assert(forall|i: int| 0 <= i < ticks.len() ==> whole[i] == ticks[i]);
    assert(in_order(ticks));
    assert(all_of(ticks, symbol));
    lemma_caught_up(symbol, ticks);
    assert(whole[ticks.len() as int] == tick);
    if ticks.len() > 0 {
        let last = ticks.last();
        let done = replay(ticks);
        assert(whole[ticks.len() - 1] == last);
        assert(not_after(last, tick));
        lemma_new_lines_current(symbol, ticks, tick, done);
        law_same_minute(last.ts_ms, tick.ts_ms);
        law_same_hour(last.ts_ms, tick.ts_ms);
        law_minute_holds_its_moments(last.ts_ms);
        law_hour_holds_its_moments(last.ts_ms);
    }
}

/// What the end of the input brings out of a symbol that has traded: the minute
/// of its last trade and then its hour.
pub proof fn law_lines_at_the_end(symbol: Seq<char>, ticks: Seq<Tick>)
    requires
        in_order(ticks),
        all_of(ticks, symbol),
    ensures
        ({
            let new = replay(ticks).state.finish(symbol).lines;
            if ticks.len() == 0 {
                new.len() == 0
            } else {
                new.len() == 2 && within_minute(new[0], ticks.last()) && within_hour(
                    new[1],
                    ticks.last(),
                )
            }
        }),
{
    lemma_caught_up(symbol, ticks);
    if ticks.len() > 0 {
        lemma_finish_lines(symbol, ticks, replay(ticks));
        law_minute_holds_its_moments(ticks.last().ts_ms);
        law_hour_holds_its_moments(ticks.last().ts_ms);
    }
}

} // verus!
