//! What stands in the columns of the lines that are put out.
use vstd::prelude::*;
use vstd::utf8::{encode_utf8, is_ascii_chars};

use crate::bytes::{lemma_bytes_without, lemma_encode_ascii, lemma_encode_concat};
use crate::clock::{date_text, time_text, MSEC_PER_MIN};
use crate::columns::{lemma_date_plain, lemma_time_plain};
use crate::decimal::decimal;
use crate::hour::{hour_text, HourSums};
use crate::minute::{minute_text, MinuteBar};
use crate::parse::{read, ParseError};
use crate::split::{joined_with, law_join_then_cut, lemma_join_push, pieces, without};
use crate::summary::{summary_text, Totals};
use crate::wording::{
    ascii, first_number, law_date_text, law_decimal_reads_back, law_decimal_text, law_time_text,
    second_number, third_number, three_numbers,
};

verus! {

/// The columns of a line.
pub open spec fn columns(line: Seq<char>) -> Seq<Seq<u8>> {
    pieces(encode_utf8(line), ',' as u8)
}

/// The column shows this date: year, month and day between dashes.
pub open spec fn shows_date(column: Seq<u8>, date_key: nat) -> bool {
    &&& three_numbers(column, '-' as u8)
    &&& first_number(column) * 10_000 + second_number(column) * 100 + third_number(column)
        == date_key
}

/// The column shows this time of day, to the second: hours, minutes and seconds
/// between colons.
pub open spec fn shows_time(column: Seq<u8>, ms: nat) -> bool {
    let seconds = first_number(column) * 3600 + second_number(column) * 60 + third_number(column);
    &&& three_numbers(column, ':' as u8)
    &&& second_number(column) < 60 && third_number(column) < 60
    &&& seconds * 1000 <= ms < seconds * 1000 + 1000
}

/// The column shows this number.
pub open spec fn shows_number(column: Seq<u8>, n: nat) -> bool {
    forall|max: nat| n <= max ==> #[trigger] read(column, max) == Ok::<nat, ParseError>(n)
}

/// The text holds no comma.
pub open spec fn no_comma(text: Seq<char>) -> bool {
    forall|i: int| 0 <= i < text.len() ==> #[trigger] text[i] != ','
}

/// The line begins with these columns, each with a comma behind it.
spec fn begins(line: Seq<char>, cols: Seq<Seq<u8>>) -> bool {
    &&& cols.len() > 0
    &&& without(cols, 44)
    &&& encode_utf8(line) == joined_with(cols, 44).push(44)
}

/// A name and the comma behind it.
proof fn lemma_name(name: Seq<char>)
    requires
        is_ascii_chars(name),
        no_comma(name),
    ensures
        begins(name + seq![','], seq![ascii(name)]),
{
    let cols = seq![ascii(name)];
    lemma_encode_ascii(name);
    assert(is_ascii_chars(seq![',']));
    lemma_encode_ascii(seq![',']);
    lemma_encode_concat(name, seq![',']);
    lemma_bytes_without(name, ',');
    assert(ascii(name) + ascii(seq![',']) =~= ascii(name).push(44));
}

/// One more column and the comma behind it.
proof fn lemma_column(head: Seq<char>, cols: Seq<Seq<u8>>, column: Seq<char>)
    requires
        begins(head, cols),
        no_comma(column),
    ensures
        begins(head + column + seq![','], cols.push(encode_utf8(column))),
{
    let next = cols.push(encode_utf8(column));
    lemma_encode_concat(head, column);
    lemma_encode_concat(head + column, seq![',']);
    assert(is_ascii_chars(seq![',']));
    lemma_encode_ascii(seq![',']);
    lemma_bytes_without(column, ',');
    lemma_join_push(cols, encode_utf8(column), 44);
    assert(encode_utf8(head + column + seq![',']) =~= joined_with(next, 44).push(44));
    assert forall|k: int, i: int|
        0 <= k < next.len() && 0 <= i < next[k].len() implies #[trigger] next[k][i] != 44 by {
        if k < cols.len() {
            assert(next[k] == cols[k]);
            assert(cols[k][i] != 44);
        }
    }
}

/// A line that begins with columns and ends behind the comma of the last.
proof fn lemma_cut(line: Seq<char>, cols: Seq<Seq<u8>>)
    requires
        begins(line, cols),
    ensures
        columns(line) == cols.push(Seq::empty()),
{
    let all = cols.push(Seq::<u8>::empty());
    lemma_join_push(cols, Seq::empty(), 44);
    assert(joined_with(all, 44) =~= encode_utf8(line));
    assert forall|k: int, i: int|
        0 <= k < all.len() && 0 <= i < all[k].len() implies #[trigger] all[k][i] != 44 by {
        if k < cols.len() {
            assert(all[k] == cols[k]);
            assert(cols[k][i] != 44);
        }
    }
    law_join_then_cut(all, 44);
}

/// The text of a date is a column that shows it.
proof fn lemma_date_column(date_key: nat)
    ensures
        no_comma(date_text(date_key)),
        shows_date(encode_utf8(date_text(date_key)), date_key),
{
    law_date_text(date_key);
    lemma_encode_ascii(date_text(date_key));
    lemma_date_plain(date_key);
}

/// The text of a time of day is a column that shows it.
proof fn lemma_time_column(ms: nat)
    ensures
        no_comma(time_text(ms)),
        shows_time(encode_utf8(time_text(ms)), ms),
{
    law_time_text(ms);
    lemma_encode_ascii(time_text(ms));
    lemma_time_plain(ms);
}

/// The text of a number is a column that shows it.
proof fn lemma_number_column(n: nat)
    ensures
        no_comma(decimal(n)),
        shows_number(encode_utf8(decimal(n)), n),
        is_ascii_chars(decimal(n)),
{
    law_decimal_text(n);
    assert forall|i: int| 0 <= i < decimal(n).len() implies #[trigger] decimal(n)[i] != ',' by {
        assert('0' <= decimal(n)[i] <= '9');
    }
    assert(is_ascii_chars(decimal(n))) by {
        assert forall|i: int| 0 <= i < decimal(n).len() implies '\0' <= #[trigger] decimal(n)[i]
            <= '\u{7f}' by {
            assert('0' <= decimal(n)[i] <= '9');
        }
    }
    lemma_encode_ascii(decimal(n));
    assert forall|max: nat| n <= max implies #[trigger] read(encode_utf8(decimal(n)), max) == Ok::<
        nat,
        ParseError,
    >(n) by {
        law_decimal_reads_back(n, max);
    }
}

/// What minute lines and hour lines begin with.
proof fn lemma_line_begins(
    name: Seq<char>,
    date_key: nat,
    symbol: Seq<char>,
    start: nat,
    end: nat,
) -> (cols: Seq<Seq<u8>>)
    requires
        is_ascii_chars(name),
        no_comma(name),
        no_comma(symbol),
    ensures
        begins(
            name + seq![','] + date_text(date_key) + seq![','] + symbol + seq![','] + time_text(
                start,
            ) + seq![','] + time_text(end) + seq![','],
            cols,
        ),
        cols.len() == 5,
        cols[0] == ascii(name),
        shows_date(cols[1], date_key),
        cols[2] == encode_utf8(symbol),
        shows_time(cols[3], start),
        shows_time(cols[4], end),
{
    lemma_date_column(date_key);
    lemma_time_column(start);
    lemma_time_column(end);
    lemma_name(name);
    let (a0, c0) = (name + seq![','], seq![ascii(name)]);
    lemma_column(a0, c0, date_text(date_key));
    let (a1, c1) = (
        a0 + date_text(date_key) + seq![','],
        c0.push(encode_utf8(date_text(date_key))),
    );
    lemma_column(a1, c1, symbol);
    let (a2, c2) = (a1 + symbol + seq![','], c1.push(encode_utf8(symbol)));
    lemma_column(a2, c2, time_text(start));
    let (a3, c3) = (a2 + time_text(start) + seq![','], c2.push(encode_utf8(time_text(start))));
    lemma_column(a3, c3, time_text(end));
    c3.push(encode_utf8(time_text(end)))
}

/// Cut at its commas, a minute line of a symbol without comma has eleven columns:
/// its name, the date, the symbol, the start of the minute and its end sixty
/// seconds later, open, high, low and close price and the volume, and the last,
/// which is left to be filled in.
pub proof fn law_minute_line_shows_bar(symbol: Seq<char>, bar: MinuteBar)
    requires
        no_comma(symbol),
    ensures
        ({
            let cut = columns(minute_text(symbol, bar));
            &&& cut.len() == 11
            &&& cut[0] == ascii("MINUTE"@)
            &&& shows_date(cut[1], bar.date_key as nat)
            &&& cut[2] == encode_utf8(symbol)
            &&& shows_time(cut[3], bar.start_ms as nat)
            &&& shows_time(cut[4], (bar.start_ms + 60_000) as nat)
            &&& shows_number(cut[5], bar.open as nat)
            &&& shows_number(cut[6], bar.high as nat)
            &&& shows_number(cut[7], bar.low as nat)
            &&& shows_number(cut[8], bar.close as nat)
            &&& shows_number(cut[9], bar.volume)
            &&& cut[10].len() == 0
        }),
{
    reveal_strlit("MINUTE");
    reveal_strlit("MINUTE,");
    let name = "MINUTE"@;
    assert("MINUTE,"@ =~= name + seq![',']);
    let (start, end) = (bar.start_ms as nat, (bar.start_ms + MSEC_PER_MIN) as nat);
    let c0 = lemma_line_begins(name, bar.date_key as nat, symbol, start, end);
    let a0 = name + seq![','] + date_text(bar.date_key as nat) + seq![','] + symbol + seq![',']
        + time_text(start) + seq![','] + time_text(end) + seq![','];
    lemma_number_column(bar.open as nat);
    lemma_number_column(bar.high as nat);
    lemma_number_column(bar.low as nat);
    lemma_number_column(bar.close as nat);
    lemma_number_column(bar.volume);
    let (open, high) = (decimal(bar.open as nat), decimal(bar.high as nat));
    let (low, close) = (decimal(bar.low as nat), decimal(bar.close as nat));
    lemma_column(a0, c0, open);
    let (a1, c1) = (a0 + open + seq![','], c0.push(encode_utf8(open)));
    lemma_column(a1, c1, high);
    let (a2, c2) = (a1 + high + seq![','], c1.push(encode_utf8(high)));
    lemma_column(a2, c2, low);
    let (a3, c3) = (a2 + low + seq![','], c2.push(encode_utf8(low)));
    lemma_column(a3, c3, close);
    let (a4, c4) = (a3 + close + seq![','], c3.push(encode_utf8(close)));
    lemma_column(a4, c4, decimal(bar.volume));
    let volume = decimal(bar.volume);
    let (a5, c5) = (a4 + volume + seq![','], c4.push(encode_utf8(volume)));
    assert(a5 == minute_text(symbol, bar));
    lemma_cut(a5, c5);
}

/// Cut at its commas, an hour line of a symbol without comma has its name, the
/// date, the symbol, the start of the hour and its end sixty minutes later,
/// before the two columns that are left to be filled in.
pub proof fn law_hour_line_shows_hour(symbol: Seq<char>, hour: HourSums)
    requires
        no_comma(symbol),
    ensures
        ({
            let cut = columns(hour_text(symbol, hour));
            &&& cut.len() == 6
            &&& cut[0] == ascii("HOUR"@)
            &&& shows_date(cut[1], hour.date_key as nat)
            &&& cut[2] == encode_utf8(symbol)
            &&& shows_time(cut[3], hour.start_ms as nat)
            &&& shows_time(cut[4], (hour.start_ms + 3_600_000) as nat)
            &&& cut[5].len() == 0
        }),
{
    reveal_strlit("HOUR");
    reveal_strlit("HOUR,");
    let name = "HOUR"@;
    assert("HOUR,"@ =~= name + seq![',']);
    let (start, end) = (hour.start_ms as nat, hour.end_ms() as nat);
    let cols = lemma_line_begins(name, hour.date_key as nat, symbol, start, end);
    lemma_cut(hour_text(symbol, hour), cols);
}

/// The two lines of a summary have three columns each: their names, the total
/// volume on the first and the total traded value on the second. Each line has
/// its end behind it.
pub proof fn law_summary_lines_show_totals(totals: Totals)
    ensures
        ({
            let cut = pieces(encode_utf8(summary_text(totals)), '\n' as u8);
            let volume = pieces(cut[0], ',' as u8);
            let value = pieces(cut[1], ',' as u8);
            &&& cut.len() == 3 && cut[2].len() == 0
            &&& volume.len() == 3 && value.len() == 3
            &&& volume[0] == ascii("SUMMARY"@) && value[0] == ascii("SUMMARY"@)
            &&& volume[1] == ascii("TOTAL_VOLUME"@)
            &&& value[1] == ascii("TOTAL_TRADED_VALUE"@)
            &&& shows_number(volume[2], totals.volume)
            &&& shows_number(value[2], totals.pv)
        }),
{
    reveal_strlit("TOTAL_VOLUME");
    reveal_strlit("TOTAL_TRADED_VALUE");
    reveal_strlit("SUMMARY");
    reveal_strlit("SUMMARY,TOTAL_VOLUME,");
    reveal_strlit("SUMMARY,TOTAL_TRADED_VALUE,");
    let a = "SUMMARY"@ + seq![','] + "TOTAL_VOLUME"@ + seq![','] + decimal(totals.volume);
    let b = "SUMMARY"@ + seq![','] + "TOTAL_TRADED_VALUE"@ + seq![','] + decimal(totals.pv);
    assert("SUMMARY,TOTAL_VOLUME,"@ =~= "SUMMARY"@ + seq![','] + "TOTAL_VOLUME"@ + seq![',']);
    assert("SUMMARY,TOTAL_TRADED_VALUE,"@ =~= "SUMMARY"@ + seq![','] + "TOTAL_TRADED_VALUE"@
        + seq![',']);
    lemma_summary_line("TOTAL_VOLUME"@, totals.volume);
    lemma_summary_line("TOTAL_TRADED_VALUE"@, totals.pv);
    let end = seq!['\n'];
    assert(is_ascii_chars(end));
    lemma_encode_ascii(end);
    assert(ascii(end) =~= seq![10u8]);
    assert(summary_text(totals) =~= a + end + b + end);
    lemma_encode_concat(a, end);
    lemma_encode_concat(a + end, b);
    lemma_encode_concat(a + end + b, end);
    let (x, y) = (encode_utf8(a), encode_utf8(b));
    let cut = seq![x, y, Seq::<u8>::empty()];
    assert(cut.drop_last() =~= seq![x, y]);
    assert(seq![x, y].drop_last() =~= seq![x]);
    assert(joined_with(seq![x], 10) == x);
    assert(joined_with(seq![x, y], 10) == x.push(10) + y);
    assert(joined_with(cut, 10) =~= encode_utf8(summary_text(totals)));
    assert(without(cut, 10));
    law_join_then_cut(cut, 10);
}

/// One of the lines of a summary, without its end.
proof fn lemma_summary_line(label: Seq<char>, n: nat)
    requires
        is_ascii_chars(label),
        no_comma(label),
        forall|i: int| 0 <= i < label.len() ==> #[trigger] label[i] != '\n',
    ensures
        ({
            let line = "SUMMARY"@ + seq![','] + label + seq![','] + decimal(n);
            let cut = columns(line);
            &&& cut.len() == 3
            &&& cut[0] == ascii("SUMMARY"@)
            &&& cut[1] == ascii(label)
            &&& shows_number(cut[2], n)
            &&& forall|j: int|
                0 <= j < encode_utf8(line).len() ==> #[trigger] encode_utf8(line)[j] != 10
        }),
{
    reveal_strlit("SUMMARY");
    let name = "SUMMARY"@;
    let head = name + seq![','] + label + seq![','];
    let line = head + decimal(n);
    let cols = seq![ascii(name)].push(encode_utf8(label));
    let all = cols.push(encode_utf8(decimal(n)));
    lemma_name(name);
    lemma_column(name + seq![','], seq![ascii(name)], label);
    lemma_encode_ascii(label);
    lemma_number_column(n);
    law_decimal_text(n);
    lemma_encode_concat(head, decimal(n));
    lemma_join_push(cols, encode_utf8(decimal(n)), 44);
    lemma_bytes_without(decimal(n), ',');
    assert forall|k: int, i: int|
        0 <= k < all.len() && 0 <= i < all[k].len() implies #[trigger] all[k][i] != 44 by {
        if k < cols.len() {
            assert(all[k] == cols[k]);
            assert(cols[k][i] != 44);
        }
    }
    law_join_then_cut(all, 44);
    assert forall|i: int| 0 <= i < line.len() implies #[trigger] line[i] != '\n' by {
        if i < name.len() {
            assert(line[i] == name[i]);
        } else if i >= head.len() {
            assert(line[i] == decimal(n)[i - head.len()]);
            assert('0' <= decimal(n)[i - head.len()] <= '9');
        } else if i > name.len() && i < head.len() - 1 {
            assert(line[i] == label[i - name.len() - 1]);
        }
    }
    lemma_bytes_without(line, '\n');
}

} // verus!
