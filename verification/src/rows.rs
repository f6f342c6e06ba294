//! What lines are passed over, what rows are trades, and which trades they are.
use vstd::prelude::*;
use vstd::utf8::{
    decode_utf8_encode_utf8, encode_utf8, encode_utf8_decode_utf8, encode_utf8_valid_utf8,
    is_ascii_chars, valid_utf8,
};

use crate::bytes::{lemma_bytes_without, lemma_encode_ascii};
use crate::clock::{date_text, time_text_msec};
use crate::columns::{lemma_date_plain, lemma_time_msec_plain};
use crate::decimal::decimal;
use crate::parse::{header, read, read_line, read_row, read_timestamp, ParseError, Tick};
use crate::split::{joined_with, law_join_then_cut, law_pieces_count, occurrences, without};
use crate::utf8::utf8_error;
use crate::wording::{
    ascii, is_date, law_date_text, law_decimal_reads_back, law_decimal_text,
    law_read_takes_numbers, law_time_text_msec, law_timestamp_reads_back, lemma_parts,
    timestamp_text, timestamp_text_sec,
};

verus! {

/// The names of the columns, as they stand in the first row of a tick file.
pub open spec fn column_names() -> Seq<u8> {
    ascii("symbol,timestamp,price,volume,side"@)
}

/// The first row holds neither a colon nor, at its end, a carriage return.
proof fn lemma_header()
    ensures
        header() == column_names(),
        header().len() == 34,
        header().last() == 'e' as u8,
        forall|i: int| 0 <= i < header().len() ==> #[trigger] header()[i] != ':' as u8,
{
    let text = "symbol,timestamp,price,volume,side"@;
    reveal_strlit("symbol,timestamp,price,volume,side");
    assert(is_ascii_chars(text));
    lemma_encode_ascii(text);
    assert(header() == ascii(text));
    assert forall|i: int| 0 <= i < header().len() implies #[trigger] header()[i] != ':' as u8 by {
        assert(text[i] != ':');
    }
}

/// A line is passed over if and only if it is empty or the names of the columns,
/// with or without a carriage return at its end.
pub proof fn law_lines_passed_over(line: Seq<u8>)
    ensures
        read_line(line) == Ok::<Option<Tick>, ParseError>(None) <==> {
            ||| line.len() == 0
            ||| line == seq!['\r' as u8]
            ||| line == column_names()
            ||| line == column_names().push('\r' as u8)
        },
{
    lemma_header();
    let names = column_names();
    assert(names.push(13).drop_last() =~= names);
    assert(seq![13u8].drop_last() =~= Seq::<u8>::empty());
    if line.len() > 0 && line.last() == 13 {
        assert(line =~= line.drop_last().push(13));
        if line.len() == 1 {
            assert(line =~= seq![13u8]);
        }
    }
}

/// What reading a line gives that holds this row.
pub open spec fn as_line(row: Result<Tick, ParseError>) -> Result<Option<Tick>, ParseError> {
    match row {
        Ok(tick) => Ok(Some(tick)),
        Err(e) => Err(e),
    }
}

/// A line that is not passed over is read as a row. A carriage return at its end
/// is no part of the row; only one is taken off.
pub proof fn law_lines_hold_rows(row: Seq<u8>)
    requires
        row.len() > 0,
        row != column_names(),
    ensures
        read_line(row.push('\r' as u8)) == as_line(read_row(row)),
        row.last() != '\r' as u8 ==> read_line(row) == as_line(read_row(row)),
{
    lemma_header();
    assert(row.push(13).drop_last() =~= row);
}

/// A row has too many columns from six commas on, and a wrong number of columns
/// where it has another number of commas than four.
pub proof fn law_commas_count(row: Seq<u8>)
    ensures
        ({
            let commas = occurrences(row, ',' as u8);
            &&& read_row(row) == Err::<Tick, ParseError>(ParseError::TooManyColumns) <==> commas
                >= 6
            &&& read_row(row) == Err::<Tick, ParseError>(ParseError::InvalidColumnCount)
                <==> commas < 4 || commas == 5
        }),
{
    law_pieces_count(row, ',' as u8);
}

/// A row of five columns is a trade if and only if its first column is text, its
/// second a moment and its third and fourth are numbers; and it is that text's
/// trade at that moment, with these numbers for its price and volume. Otherwise
/// it is refused for the leftmost of these columns that is not what it should
/// be, for the reason that the column by itself is.
pub proof fn law_rows_by_columns(columns: Seq<Seq<u8>>)
    requires
        columns.len() == 5,
        without(columns, ',' as u8),
    ensures
        ({
            let row = read_row(joined_with(columns, ',' as u8));
            let text = valid_utf8(columns[0]);
            let moment = read_timestamp(columns[1]);
            let price = read(columns[2], 0xffff_ffff_ffff_ffff);
            let volume = read(columns[3], 0xffff_ffff_ffff_ffff);
            &&& row is Ok <==> text && moment is Ok && price is Ok && volume is Ok
            &&& row matches Ok(tick) ==> {
                &&& encode_utf8(tick.symbol) == columns[0]
                &&& tick.date_key == moment->Ok_0.date_key
                &&& tick.ts_ms == moment->Ok_0.ms_of_day
                &&& tick.price == price->Ok_0
                &&& tick.volume == volume->Ok_0
            }
            &&& !text ==> row == Err::<Tick, ParseError>(
                ParseError::InvalidUtf8(utf8_error(columns[0])),
            )
            &&& text && moment is Err ==> row == Err::<Tick, ParseError>(moment->Err_0)
            &&& text && moment is Ok && price is Err ==> row == Err::<Tick, ParseError>(
                price->Err_0,
            )
            &&& text && moment is Ok && price is Ok && volume is Err ==> row == Err::<
                Tick,
                ParseError,
            >(volume->Err_0)
        }),
{
    law_join_then_cut(columns, ',' as u8);
    law_read_takes_numbers(columns[2], u64::MAX as nat);
    law_read_takes_numbers(columns[3], u64::MAX as nat);
    if valid_utf8(columns[0]) {
        decode_utf8_encode_utf8(columns[0]);
    }
}

/// The columns of a trade.
pub open spec fn columns_of(
    symbol: Seq<char>,
    date_key: u32,
    ms: u32,
    price: u64,
    volume: u64,
    side: Seq<u8>,
) -> Seq<Seq<u8>> {
    seq![
        encode_utf8(symbol),
        ascii(timestamp_text(date_key as nat, ms as nat)),
        ascii(decimal(price as nat)),
        ascii(decimal(volume as nat)),
        side,
    ]
}

/// None of the columns of a trade holds a comma, and there is a colon in one.
proof fn lemma_columns(
    symbol: Seq<char>,
    date_key: u32,
    ms: u32,
    price: u64,
    volume: u64,
    side: Seq<u8>,
)
    requires
        forall|i: int| 0 <= i < symbol.len() ==> #[trigger] symbol[i] != ',',
        forall|i: int| 0 <= i < side.len() ==> #[trigger] side[i] != ',' as u8,
        is_date(date_key as nat),
        ms < 24 * 60 * 60 * 1000,
    ensures
        without(columns_of(symbol, date_key, ms, price, volume, side), ',' as u8),
        ascii(timestamp_text(date_key as nat, ms as nat)).len() > 13,
        ascii(timestamp_text(date_key as nat, ms as nat))[13] == ':' as u8,
{
    let columns = columns_of(symbol, date_key, ms, price, volume, side);
    let moment = timestamp_text(date_key as nat, ms as nat);
    let date = date_text(date_key as nat);
    let time = time_text_msec(ms as nat);
    lemma_bytes_without(symbol, ',');
    law_decimal_text(price as nat);
    law_decimal_text(volume as nat);
    lemma_parts(date_key as nat, ms as nat);
    let head = ascii(timestamp_text_sec(date_key as nat, ms as nat));
    assert(ascii(moment)[13] == head[13]);
    lemma_date_plain(date_key as nat);
    lemma_time_msec_plain(ms as nat);
    law_date_text(date_key as nat);
    law_time_text_msec(ms as nat);
    assert forall|i: int| 0 <= i < moment.len() implies #[trigger] ascii(moment)[i]
        != ',' as u8 by {
        if i < date.len() {
            assert(moment[i] == date[i]);
        } else if i > date.len() {
            assert(moment[i] == time[i - date.len() - 1]);
        } else {
            assert(moment[i] == 'T');
        }
    }
    assert forall|k: int, i: int|
        0 <= k < columns.len() && 0 <= i < columns[k].len() implies #[trigger] columns[k][i]
        != ',' as u8 by {
        if k == 2 {
            assert('0' <= decimal(price as nat)[i] <= '9');
        } else if k == 3 {
            assert('0' <= decimal(volume as nat)[i] <= '9');
        }
    }
}

/// Every trade can be written as a row, and is read back from it: its symbol,
/// whatever it is but for a comma, its moment, price and volume, whatever stands
/// in the column for the side.
pub proof fn law_rows_read_back(
    symbol: Seq<char>,
    date_key: u32,
    ms: u32,
    price: u64,
    volume: u64,
    side: Seq<u8>,
)
    requires
        forall|i: int| 0 <= i < symbol.len() ==> #[trigger] symbol[i] != ',',
        forall|i: int| 0 <= i < side.len() ==> #[trigger] side[i] != ',' as u8,
        is_date(date_key as nat),
        ms < 24 * 60 * 60 * 1000,
    ensures
        read_line(
            joined_with(columns_of(symbol, date_key, ms, price, volume, side), ',' as u8),
        ) == Ok::<Option<Tick>, ParseError>(
            Some(Tick { symbol, date_key, ts_ms: ms, price, volume }),
        ),
{
    let columns = columns_of(symbol, date_key, ms, price, volume, side);
    let line = joined_with(columns, ',' as u8);
    lemma_header();
    lemma_row_reads_back(symbol, date_key, ms, price, volume, side);
    lemma_row_shape(columns);
    if line.last() == 13 {
        let shorter = side.drop_last();
        assert(side.len() > 0 && side.last() == 13);
        assert(forall|i: int| 0 <= i < shorter.len() ==> shorter[i] == side[i]);
        lemma_row_reads_back(symbol, date_key, ms, price, volume, shorter);
        lemma_row_shape(columns_of(symbol, date_key, ms, price, volume, shorter));
        let init = columns.drop_last();
        assert(columns_of(symbol, date_key, ms, price, volume, shorter).drop_last() =~= init);
        assert(line.drop_last() =~= joined_with(
            columns_of(symbol, date_key, ms, price, volume, shorter),
            ',' as u8,
        ));
    }
}

/// Where the columns of a row lie.
proof fn lemma_row_shape(columns: Seq<Seq<u8>>)
    requires
        columns.len() == 5,
        columns[1].len() > 13,
        columns[1][13] == ':' as u8,
    ensures
        ({
            let row = joined_with(columns, ',' as u8);
            &&& row == joined_with(columns.drop_last(), ',' as u8).push(',' as u8)
                + columns.last()
            &&& row.len() > columns[0].len() + 14
            &&& row[columns[0].len() + 14int] == ':' as u8
        }),
{
    let a = columns.take(1);
    let b = columns.take(2);
    let c = columns.take(3);
    let d = columns.take(4);
    assert(columns.drop_last() =~= d);
    assert(d.drop_last() =~= c);
    assert(c.drop_last() =~= b);
    assert(b.drop_last() =~= a);
    assert(joined_with(a, 44) == columns[0]);
    assert(joined_with(b, 44) == joined_with(a, 44).push(44) + columns[1]);
    assert(joined_with(b, 44)[columns[0].len() + 14int] == columns[1][13]);
    assert(joined_with(c, 44) == joined_with(b, 44).push(44) + columns[2]);
    assert(joined_with(d, 44) == joined_with(c, 44).push(44) + columns[3]);
}

/// The row of a trade is read back, and is not the names of the columns.
proof fn lemma_row_reads_back(
    symbol: Seq<char>,
    date_key: u32,
    ms: u32,
    price: u64,
    volume: u64,
    side: Seq<u8>,
)
    requires
        forall|i: int| 0 <= i < symbol.len() ==> #[trigger] symbol[i] != ',',
        forall|i: int| 0 <= i < side.len() ==> #[trigger] side[i] != ',' as u8,
        is_date(date_key as nat),
        ms < 24 * 60 * 60 * 1000,
    ensures
        ({
            let columns = columns_of(symbol, date_key, ms, price, volume, side);
            let row = joined_with(columns, ',' as u8);
            &&& columns[1].len() > 13 && columns[1][13] == ':' as u8
            &&& row != header()
            &&& read_row(row) == Ok::<Tick, ParseError>(
                Tick { symbol, date_key, ts_ms: ms, price, volume },
            )
        }),
{
    let columns = columns_of(symbol, date_key, ms, price, volume, side);
    lemma_header();
    lemma_columns(symbol, date_key, ms, price, volume, side);
    lemma_row_shape(columns);
    law_rows_by_columns(columns);
    encode_utf8_valid_utf8(symbol);
    encode_utf8_decode_utf8(symbol);
    law_timestamp_reads_back(date_key, ms);
    law_decimal_reads_back(price as nat, u64::MAX as nat);
    law_decimal_reads_back(volume as nat, u64::MAX as nat);
    let tick = read_row(joined_with(columns, ',' as u8))->Ok_0;
    encode_utf8_decode_utf8(tick.symbol);
}

} // verus!
