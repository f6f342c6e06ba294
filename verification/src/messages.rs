//! What stands in the messages.
use vstd::prelude::*;

use crate::clock::{date_text, time_text_msec};
use crate::decimal::decimal;
use crate::error::Fault;
use crate::lines::{shows_date, shows_number, shows_time};
use crate::parse::{read, ParseError};
use crate::utf8::Utf8Error;
use crate::wording::{
    ascii, law_date_text, law_decimal_reads_back, law_decimal_text, law_read_takes_numbers,
    law_time_text, law_time_text_msec,
};

verus! {

/// The part of a text from one place to before another.
pub open spec fn part(text: Seq<char>, from: int, to: int) -> Seq<char> {
    text.subrange(from, to)
}

/// The text shows this date in ten characters.
pub open spec fn tells_date(text: Seq<char>, date_key: u32) -> bool {
    text.len() == 10 && shows_date(ascii(text), date_key as nat)
}

/// The text shows this time of day, to the millisecond, in twelve characters.
pub open spec fn tells_time(text: Seq<char>, ms: u32) -> bool {
    &&& text.len() == 12
    &&& shows_time(ascii(text.take(8)), ms as nat)
    &&& text[8] == '.'
    &&& shows_number(ascii(text.skip(9)), ms as nat % 1000)
}

proof fn lemma_tells_date(date_key: u32)
    requires
        date_key < 100_000_000,
    ensures
        tells_date(date_text(date_key as nat), date_key),
{
    law_date_text(date_key as nat);
}

proof fn lemma_tells_time(ms: u32)
    requires
        ms < 100 * 60 * 60 * 1000,
    ensures
        tells_time(time_text_msec(ms as nat), ms),
{
    let text = time_text_msec(ms as nat);
    law_time_text(ms as nat);
    law_time_text_msec(ms as nat);
    assert(text.len() == 12);
    assert(text.take(8) =~= text.take(text.len() - 4));
    let frac = ascii(text.skip(9));
    assert(text.skip(9) =~= text.subrange(text.len() - 3, text.len() as int));
    assert forall|max: nat| ms as nat % 1000 <= max implies #[trigger] read(frac, max) == Ok::<
        nat,
        ParseError,
    >(ms as nat % 1000) by {
        law_read_takes_numbers(frac, max);
    }
}

/// The message on a line that cannot be read names its number and ends with the
/// message on what is wrong with it.
pub proof fn law_unreadable_line_is_named(line_num: nat, source: ParseError)
    ensures
        ({
            let text = (Fault::Parse { line_num, source }).message();
            let why = source.spec_message();
            let n = text.len() - why.len();
            &&& n >= 8
            &&& part(text, 0, 5) == "line "@
            &&& shows_number(ascii(part(text, 5, n - 2)), line_num)
            &&& part(text, n - 2, n) == ": "@
            &&& part(text, n, text.len() as int) == why
        }),
{
    let text = (Fault::Parse { line_num, source }).message();
    let why = source.spec_message();
    let n = text.len() - why.len();
    reveal_strlit("line ");
    reveal_strlit(": ");
    law_decimal_text(line_num);
    assert(part(text, 0, 5) =~= "line "@);
    assert(part(text, 5, n - 2) =~= decimal(line_num));
    assert(part(text, n - 2, n) =~= ": "@);
    assert(part(text, n, text.len() as int) =~= why);
    lemma_shows(line_num);
}

/// The message on a trade of too early a date names its symbol, then its own
/// date, and then the later date that came before it.
pub proof fn law_early_date_is_named(symbol: Seq<char>, got: u32, current: u32)
    requires
        got < 100_000_000,
        current < 100_000_000,
    ensures
        ({
            let text = (Fault::OutOfOrderDate { symbol, got, current }).message();
            let n = text.len() as int;
            &&& n == 29 + symbol.len() + 25
            &&& part(text, 0, 29) == "out-of-order date for symbol="@
            &&& part(text, 29, n - 25) == symbol
            &&& part(text, n - 25, n - 23) == ": "@
            &&& tells_date(part(text, n - 23, n - 13), got)
            &&& part(text, n - 13, n - 10) == " < "@
            &&& tells_date(part(text, n - 10, n), current)
        }),
{
    let text = (Fault::OutOfOrderDate { symbol, got, current }).message();
    let n = text.len() as int;
    reveal_strlit("out-of-order date for symbol=");
    reveal_strlit(": ");
    reveal_strlit(" < ");
    lemma_tells_date(got);
    lemma_tells_date(current);
    assert(part(text, 0, 29) =~= "out-of-order date for symbol="@);
    assert(part(text, 29, n - 25) =~= symbol);
    assert(part(text, n - 25, n - 23) =~= ": "@);
    assert(part(text, n - 23, n - 13) =~= date_text(got as nat));
    assert(part(text, n - 13, n - 10) =~= " < "@);
    assert(part(text, n - 10, n) =~= date_text(current as nat));
}

/// The message on a trade of too early a time names its symbol and its date,
/// then its own time, and then the later time that came before it.
pub proof fn law_early_time_is_named(
    symbol: Seq<char>,
    date_key: u32,
    got_ms: u32,
    current_ms: u32,
)
    requires
        date_key < 100_000_000,
        got_ms < 100 * 60 * 60 * 1000,
        current_ms < 100 * 60 * 60 * 1000,
    ensures
        ({
            let text = (Fault::OutOfOrderTime {
                symbol,
                date_key,
                got_ms,
                current_ms,
            }).message();
            let n = text.len() as int;
            &&& n == 34 + symbol.len() + 46
            &&& part(text, 0, 34) == "out-of-order timestamp for symbol="@
            &&& part(text, 34, n - 46) == symbol
            &&& part(text, n - 46, n - 39) == ", date="@
            &&& tells_date(part(text, n - 39, n - 29), date_key)
            &&& part(text, n - 29, n - 27) == ": "@
            &&& tells_time(part(text, n - 27, n - 15), got_ms)
            &&& part(text, n - 15, n - 12) == " < "@
            &&& tells_time(part(text, n - 12, n), current_ms)
        }),
{
    let text = (Fault::OutOfOrderTime { symbol, date_key, got_ms, current_ms }).message();
    let n = text.len() as int;
    reveal_strlit("out-of-order timestamp for symbol=");
    reveal_strlit(", date=");
    reveal_strlit(": ");
    reveal_strlit(" < ");
    lemma_tells_date(date_key);
    lemma_tells_time(got_ms);
    lemma_tells_time(current_ms);
    assert(part(text, 0, 34) =~= "out-of-order timestamp for symbol="@);
    assert(part(text, 34, n - 46) =~= symbol);
    assert(part(text, n - 46, n - 39) =~= ", date="@);
    assert(part(text, n - 39, n - 29) =~= date_text(date_key as nat));
    assert(part(text, n - 29, n - 27) =~= ": "@);
    assert(part(text, n - 27, n - 15) =~= time_text_msec(got_ms as nat));
    assert(part(text, n - 15, n - 12) =~= " < "@);
    assert(part(text, n - 12, n) =~= time_text_msec(current_ms as nat));
}

/// The message on bytes that are no text names where they stop being text, and
/// how many bytes are at fault, where that is known.
pub proof fn law_bad_text_is_named(e: Utf8Error)
    ensures
        ({
            let text = e.spec_message();
            let n = text.len() as int;
            let at = n - decimal(e.valid_up_to as nat).len();
            &&& shows_number(ascii(part(text, at, n)), e.valid_up_to as nat)
            &&& e.error_len is None ==> part(text, 0, at)
                == "incomplete utf-8 byte sequence from index "@
            &&& e.error_len matches Some(len) ==> {
                &&& at > 44
                &&& part(text, 0, 26) == "invalid utf-8 sequence of "@
                &&& shows_number(ascii(part(text, 26, at - 18)), len as nat)
                &&& part(text, at - 18, at) == " bytes from index "@
            }
        }),
        ParseError::InvalidUtf8(e).spec_message().take(15) == "invalid utf-8: "@,
        ParseError::InvalidUtf8(e).spec_message().skip(15) == e.spec_message(),
{
    let text = e.spec_message();
    let n = text.len() as int;
    let v = e.valid_up_to as nat;
    let at = n - decimal(v).len();
    reveal_strlit("incomplete utf-8 byte sequence from index ");
    reveal_strlit("invalid utf-8 sequence of ");
    reveal_strlit(" bytes from index ");
    reveal_strlit("invalid utf-8: ");
    law_decimal_text(v);
    assert(part(text, at, n) =~= decimal(v));
    lemma_shows(v);
    match e.error_len {
        None => {
            assert(part(text, 0, at) =~= "incomplete utf-8 byte sequence from index "@);
        },
        Some(len) => {
            law_decimal_text(len as nat);
            lemma_shows(len as nat);
            assert(part(text, 0, 26) =~= "invalid utf-8 sequence of "@);
            assert(part(text, 26, at - 18) =~= decimal(len as nat));
            assert(part(text, at - 18, at) =~= " bytes from index "@);
        },
    }
    assert(ParseError::InvalidUtf8(e).spec_message().take(15) =~= "invalid utf-8: "@);
    assert(ParseError::InvalidUtf8(e).spec_message().skip(15) =~= text);
}

proof fn lemma_shows(n: nat)
    ensures
        shows_number(ascii(decimal(n)), n),
{
    assert forall|max: nat| n <= max implies #[trigger] read(ascii(decimal(n)), max) == Ok::<
        nat,
        ParseError,
    >(n) by {
        law_decimal_reads_back(n, max);
    }
}

} // verus!
