//! The columns of a line: symbols are shown as they came, and every line has
//! as many columns as it should.
use vstd::prelude::*;
use vstd::utf8::{decode_utf8_encode_utf8, encode_scalar, encode_utf8, leading_byte_width_1};

use crate::clock::{date_text, time_text, time_text_msec, MSEC_PER_MIN};
use crate::decimal::{decimal, zero_padded};
use crate::hour::{hour_text, HourSums};
use crate::minute::{minute_text, MinuteBar};
use crate::parse::{read_row, COMMA};
use crate::split::{law_pieces_join, lemma_pieces_without, pieces};
use crate::stream::NEWLINE;

verus! {

/// How often `c` occurs in the text.
pub open spec fn count(text: Seq<char>, c: char) -> nat
    decreases text.len(),
{
    if text.len() == 0 {
        0
    } else {
        count(text.drop_last(), c) + if text.last() == c {
            1nat
        } else {
            0
        }
    }
}

/// The text holds neither a comma nor the end of a line.
pub open spec fn is_plain(text: Seq<char>) -> bool {
    forall|i: int| 0 <= i < text.len() ==> #[trigger] text[i] != ',' && text[i] != '\n'
}

proof fn lemma_count_concat(a: Seq<char>, b: Seq<char>, c: char)
    ensures
        count(a + b, c) == count(a, c) + count(b, c),
    decreases b.len(),
{
    if b.len() == 0 {
        assert(a + b =~= a);
    } else {
        lemma_count_concat(a, b.drop_last(), c);
        assert((a + b).drop_last() =~= a + b.drop_last());
    }
}

proof fn lemma_count_none(text: Seq<char>, c: char)
    requires
        forall|i: int| 0 <= i < text.len() ==> #[trigger] text[i] != c,
    ensures
        count(text, c) == 0,
    decreases text.len(),
{
    if text.len() > 0 {
        let init = text.drop_last();
        assert(forall|i: int| 0 <= i < init.len() ==> init[i] == text[i]);
        assert(text[text.len() - 1] != c);
        lemma_count_none(init, c);
    }
}

proof fn lemma_plain(text: Seq<char>)
    requires
        is_plain(text),
    ensures
        count(text, ',') == 0,
        count(text, '\n') == 0,
{
    lemma_count_none(text, ',');
    lemma_count_none(text, '\n');
}

proof fn lemma_single(d: char, c: char)
    ensures
        count(seq![d], c) == if c == d {
            1nat
        } else {
            0
        },
{
    assert(seq![d].drop_last() =~= Seq::<char>::empty());
    reveal_with_fuel(count, 2);
}

proof fn lemma_decimal_plain(n: nat)
    ensures
        is_plain(decimal(n)),
    decreases n,
{
    if n >= 10 {
        lemma_decimal_plain(n / 10);
    }
}

proof fn lemma_padded_plain(n: nat, width: nat)
    ensures
        is_plain(zero_padded(n, width)),
{
    lemma_decimal_plain(n);
}

pub proof fn lemma_date_plain(date_key: nat)
    ensures
        is_plain(date_text(date_key)),
{
    lemma_padded_plain(date_key / 10_000, 4);
    lemma_padded_plain((date_key / 100) % 100, 2);
    lemma_padded_plain(date_key % 100, 2);
}

pub proof fn lemma_time_plain(ms: nat)
    ensures
        is_plain(time_text(ms)),
{
    lemma_padded_plain(ms / 3_600_000, 2);
    lemma_padded_plain((ms / 60_000) % 60, 2);
    lemma_padded_plain((ms / 1000) % 60, 2);
}

pub proof fn lemma_time_msec_plain(ms: nat)
    ensures
        is_plain(time_text_msec(ms)),
{
    lemma_time_plain(ms);
    lemma_padded_plain(ms % 1000, 3);
}

/// One more column, and the comma after it.
proof fn lemma_add_column(head: Seq<char>, column: Seq<char>)
    ensures
        count(head + column + seq![','], ',') == count(head, ',') + count(column, ',') + 1,
        count(head + column + seq![','], '\n') == count(head, '\n') + count(column, '\n'),
{
    lemma_single(',', ',');
    lemma_single(',', '\n');
    lemma_count_concat(head, column, ',');
    lemma_count_concat(head, column, '\n');
    lemma_count_concat(head + column, seq![','], ',');
    lemma_count_concat(head + column, seq![','], '\n');
}

/// One more number, and the comma after it.
proof fn lemma_add_number(head: Seq<char>, n: nat)
    ensures
        count(head + decimal(n) + seq![','], ',') == count(head, ',') + 1,
        count(head + decimal(n) + seq![','], '\n') == count(head, '\n'),
{
    lemma_decimal_plain(n);
    lemma_plain(decimal(n));
    lemma_add_column(head, decimal(n));
}

/// One more time of day, and the comma after it.
proof fn lemma_add_time(head: Seq<char>, ms: nat)
    ensures
        count(head + time_text(ms) + seq![','], ',') == count(head, ',') + 1,
        count(head + time_text(ms) + seq![','], '\n') == count(head, '\n'),
{
    lemma_time_plain(ms);
    lemma_plain(time_text(ms));
    lemma_add_column(head, time_text(ms));
}

/// A name that ends with a comma, a date, a symbol and a moment in time: what
/// a minute line and an hour line begin with.
proof fn lemma_line_head(name: Seq<char>, date_key: nat, symbol: Seq<char>, ms: nat)
    requires
        count(name, ',') == 1,
        count(name, '\n') == 0,
    ensures
        ({
            let head = name + date_text(date_key) + seq![','] + symbol + seq![','] + time_text(ms)
                + seq![','];
            &&& count(head, ',') == 4 + count(symbol, ',')
            &&& count(head, '\n') == count(symbol, '\n')
        }),
{
    lemma_date_plain(date_key);
    lemma_plain(date_text(date_key));
    lemma_add_column(name, date_text(date_key));
    let a = name + date_text(date_key) + seq![','];
    lemma_add_column(a, symbol);
    lemma_add_time(a + symbol + seq![','], ms);
}

/// A minute line has ten commas and so eleven columns, the last of which is
/// left to be filled in, and is one line, where the symbol holds no comma and
/// no end of a line.
pub proof fn law_minute_line_columns(symbol: Seq<char>, bar: MinuteBar)
    ensures
        count(minute_text(symbol, bar), ',') == 10 + count(symbol, ','),
        count(minute_text(symbol, bar), '\n') == count(symbol, '\n'),
{
    let name = "MINUTE,"@;
    reveal_strlit("MINUTE,");
    assert(name =~= seq!['M', 'I', 'N', 'U', 'T', 'E'] + seq![',']);
    lemma_plain(seq!['M', 'I', 'N', 'U', 'T', 'E']);
    lemma_count_concat(seq!['M', 'I', 'N', 'U', 'T', 'E'], seq![','], ',');
    lemma_count_concat(seq!['M', 'I', 'N', 'U', 'T', 'E'], seq![','], '\n');
    lemma_single(',', ',');
    lemma_single(',', '\n');
    lemma_line_head(name, bar.date_key as nat, symbol, bar.start_ms as nat);
    let a = name + date_text(bar.date_key as nat) + seq![','] + symbol + seq![','] + time_text(
        bar.start_ms as nat,
    ) + seq![','];
    lemma_add_time(a, (bar.start_ms + MSEC_PER_MIN) as nat);
    let b = a + time_text((bar.start_ms + MSEC_PER_MIN) as nat) + seq![','];
    lemma_add_number(b, bar.open as nat);
    let c = b + decimal(bar.open as nat) + seq![','];
    lemma_add_number(c, bar.high as nat);
    let d = c + decimal(bar.high as nat) + seq![','];
    lemma_add_number(d, bar.low as nat);
    let e = d + decimal(bar.low as nat) + seq![','];
    lemma_add_number(e, bar.close as nat);
    let f = e + decimal(bar.close as nat) + seq![','];
    lemma_add_number(f, bar.volume);
}

/// An hour line has five commas before its last two columns, which are left to
/// be filled in, and is one line, where the symbol holds no comma and no end
/// of a line.
pub proof fn law_hour_line_columns(symbol: Seq<char>, hour: HourSums)
    ensures
        count(hour_text(symbol, hour), ',') == 5 + count(symbol, ','),
        count(hour_text(symbol, hour), '\n') == count(symbol, '\n'),
{
    let name = "HOUR,"@;
    reveal_strlit("HOUR,");
    assert(name =~= seq!['H', 'O', 'U', 'R'] + seq![',']);
    lemma_plain(seq!['H', 'O', 'U', 'R']);
    lemma_count_concat(seq!['H', 'O', 'U', 'R'], seq![','], ',');
    lemma_count_concat(seq!['H', 'O', 'U', 'R'], seq![','], '\n');
    lemma_single(',', ',');
    lemma_single(',', '\n');
    lemma_line_head(name, hour.date_key as nat, symbol, hour.start_ms as nat);
    let a = name + date_text(hour.date_key as nat) + seq![','] + symbol + seq![','] + time_text(
        hour.start_ms as nat,
    ) + seq![','];
    lemma_add_time(a, hour.end_ms() as nat);
}

/// An ASCII character is one byte.
proof fn lemma_one_byte(c: char)
    requires
        (c as u32) < 128,
    ensures
        encode_scalar(c as u32) == seq![c as u8],
{
    let v = c as u32;
    assert(leading_byte_width_1(v) == v as u8) by (bit_vector)
        requires
            v < 128,
    ;
    assert(encode_scalar(v) =~= seq![c as u8]);
}

/// An ASCII character of a text is among its bytes.
proof fn lemma_ascii_byte(chars: Seq<char>, i: int, c: char)
    requires
        0 <= i < chars.len(),
        chars[i] == c,
        (c as u32) < 128,
    ensures
        exists|j: int|
            0 <= j < encode_utf8(chars).len() && #[trigger] encode_utf8(chars)[j] == c as u8,
    decreases chars.len(),
{
    let bytes = encode_utf8(chars);
    let first = encode_scalar(chars[0] as u32);
    let rest = encode_utf8(chars.drop_first());
    if i == 0 {
        lemma_one_byte(c);
        assert(bytes[0] == first[0]);
    } else {
        lemma_ascii_byte(chars.drop_first(), i - 1, c);
        let j = choose|j: int| 0 <= j < rest.len() && #[trigger] rest[j] == c as u8;
        assert(bytes[first.len() + j] == rest[j]);
    }
}

/// A text whose bytes do not hold an ASCII character does not hold it.
proof fn lemma_without(chars: Seq<char>, c: char)
    requires
        (c as u32) < 128,
        forall|j: int|
            0 <= j < encode_utf8(chars).len() ==> #[trigger] encode_utf8(chars)[j] != c as u8,
    ensures
        count(chars, c) == 0,
{
    assert forall|i: int| 0 <= i < chars.len() implies #[trigger] chars[i] != c by {
        if chars[i] == c {
            lemma_ascii_byte(chars, i, c);
        }
    }
    lemma_count_none(chars, c);
}

/// The symbol of a row is its first column, byte for byte. It holds no comma,
/// and no end of a line where the row holds none.
pub proof fn law_symbol_is_first_column(row: Seq<u8>)
    requires
        read_row(row) is Ok,
    ensures
        encode_utf8(read_row(row)->Ok_0.symbol) == pieces(row, COMMA)[0],
        count(read_row(row)->Ok_0.symbol, ',') == 0,
        (forall|i: int| 0 <= i < row.len() ==> #[trigger] row[i] != NEWLINE) ==> count(
            read_row(row)->Ok_0.symbol,
            '\n',
        ) == 0,
{
    let column = pieces(row, COMMA)[0];
    let symbol = read_row(row)->Ok_0.symbol;
    decode_utf8_encode_utf8(column);
    law_pieces_join(row, COMMA);
    assert forall|j: int| 0 <= j < column.len() implies #[trigger] column[j] != ',' as u8 by {
        assert(pieces(row, COMMA)[0][j] != COMMA);
    }
    lemma_without(symbol, ',');
    if forall|i: int| 0 <= i < row.len() ==> #[trigger] row[i] != NEWLINE {
        lemma_pieces_without(row, COMMA, NEWLINE);
        assert forall|j: int| 0 <= j < column.len() implies #[trigger] column[j] != '\n' as u8 by {
            assert(pieces(row, COMMA)[0][j] != NEWLINE);
        }
        lemma_without(symbol, '\n');
    }
}

} // verus!
