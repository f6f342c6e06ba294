//! Rows of the tick file: `symbol,timestamp,price,volume,side`.
use vstd::prelude::*;
use vstd::string::StringSliceAdditionalSpecFns;
use vstd::utf8::{decode_utf8, encode_utf8_decode_utf8, valid_utf8};

use crate::clock::MSEC_PER_DAY;
use crate::decimal::{
    all_digits, digit_run, is_digit, lemma_digit_run, lemma_digit_run_ends, lemma_value_bound,
    lemma_value_grows, pow10, value,
};
use crate::split::{lemma_pieces_grow, lemma_pieces_push, pieces};
use crate::utf8::{text_of, utf8_error, Utf8Error};

verus! {

/// Why a row could not be read.
#[derive(Debug, Clone, Copy, PartialEq, Eq, Structural)]
pub enum ParseError {
    EmptyColumn,
    InvalidDigit,
    NumericOverflow,
    InvalidDatetime,
    InvalidColumnCount,
    TooManyColumns,
    InvalidUtf8(Utf8Error),
}

impl ParseError {
    /// The message for this error.
    pub open spec fn spec_message(self) -> Seq<char> {
        match self {
            ParseError::EmptyColumn => "empty column"@,
            ParseError::InvalidDigit => "invalid digit"@,
            ParseError::NumericOverflow => "numeric overflow"@,
            ParseError::InvalidDatetime => "invalid datetime"@,
            ParseError::InvalidColumnCount => "invalid column count"@,
            ParseError::TooManyColumns => "too many columns"@,
            ParseError::InvalidUtf8(e) => "invalid utf-8: "@ + e.spec_message(),
        }
    }

    /// The message for this error.
    pub fn message(&self) -> (text: String)
        ensures
            text@ == self.spec_message(),
    {
        match self {
            ParseError::EmptyColumn => "empty column".to_owned(),
            ParseError::InvalidDigit => "invalid digit".to_owned(),
            ParseError::NumericOverflow => "numeric overflow".to_owned(),
            ParseError::InvalidDatetime => "invalid datetime".to_owned(),
            ParseError::InvalidColumnCount => "invalid column count".to_owned(),
            ParseError::TooManyColumns => "too many columns".to_owned(),
            ParseError::InvalidUtf8(e) => {
                let mut text = "invalid utf-8: ".to_owned();
                text.append(e.message().as_str());
                text
            },
        }
    }
}

impl From<Utf8Error> for ParseError {
    fn from(value: Utf8Error) -> (e: ParseError) {
        ParseError::InvalidUtf8(value)
    }
}

impl vstd::std_specs::convert::FromSpecImpl<Utf8Error> for ParseError {
    open spec fn obeys_from_spec() -> bool {
        true
    }

    open spec fn from_spec(value: Utf8Error) -> ParseError {
        ParseError::InvalidUtf8(value)
    }
}

/// What reading `s` as an unsigned decimal number of at most `max` gives. The
/// digits are taken from the left: a number that has grown too large is
/// reported before a later byte that is no digit.
pub open spec fn read(s: Seq<u8>, max: nat) -> Result<nat, ParseError> {
    if s.len() == 0 {
        Err(ParseError::EmptyColumn)
    } else if value(s.take(digit_run(s) as int)) > max {
        Err(ParseError::NumericOverflow)
    } else if digit_run(s) < s.len() {
        Err(ParseError::InvalidDigit)
    } else {
        Ok(value(s))
    }
}

/// One more digit keeps a prefix made of digits.
proof fn lemma_digits_extend(s: Seq<u8>, i: int)
    requires
        0 <= i < s.len(),
        all_digits(s.take(i)),
        is_digit(s[i]),
    ensures
        all_digits(s.take(i + 1)),
        value(s.take(i + 1)) == value(s.take(i)) * 10 + (s[i] - 48),
{
    assert(s.take(i + 1).drop_last() =~= s.take(i));
    assert forall|n: int| 0 <= n < i + 1 implies is_digit(#[trigger] s.take(i + 1)[n]) by {
        if n < i {
            assert(s.take(i)[n] == s[n]);
        }
    }
}

/// A byte that is no digit after a prefix that still fits.
pub proof fn lemma_read_stops(s: Seq<u8>, i: int, max: nat)
    requires
        0 <= i < s.len(),
        all_digits(s.take(i)),
        value(s.take(i)) <= max,
        !is_digit(s[i]),
    ensures
        read(s, max) == Err::<nat, ParseError>(ParseError::InvalidDigit),
{
    lemma_digit_run_ends(s, i);
}

/// A prefix of digits that stands for too large a number.
pub proof fn lemma_read_overflows(s: Seq<u8>, i: int, max: nat)
    requires
        0 < i <= s.len(),
        all_digits(s.take(i)),
        value(s.take(i)) > max,
    ensures
        read(s, max) == Err::<nat, ParseError>(ParseError::NumericOverflow),
{
    lemma_digit_run(s);
    let run = digit_run(s) as int;
    if run < i {
        assert(s.take(i)[run] == s[run]);
    }
    lemma_value_grows(s, i, run);
}

/// All digits, and not too large.
pub proof fn lemma_read_succeeds(s: Seq<u8>, max: nat)
    requires
        s.len() > 0,
        all_digits(s),
        value(s) <= max,
    ensures
        read(s, max) == Ok::<nat, ParseError>(value(s)),
{
    assert(s.take(s.len() as int) =~= s);
    lemma_digit_run_ends(s, s.len() as int);
}

/// The byte that separates columns.
pub const COMMA: u8 = 44;

/// What is wrong with a row of `count` columns, if anything.
pub open spec fn column_error(count: nat) -> Option<ParseError> {
    if count == 5 {
        None
    } else if count > 6 {
        Some(ParseError::TooManyColumns)
    } else {
        Some(ParseError::InvalidColumnCount)
    }
}

/// A trade as the models of this library see it.
pub struct Tick {
    pub symbol: Seq<char>,
    pub date_key: u32,
    pub ts_ms: u32,
    pub price: u64,
    pub volume: u64,
}

/// An executed trade.
#[derive(Debug, Clone, Copy)]
pub struct ParsedTick<'a> {
    pub symbol: &'a str,
    pub date_key: u32,
    pub ts_ms: u32,
    pub price: u64,
    pub volume: u64,
}

impl<'a> View for ParsedTick<'a> {
    type V = Tick;

    open spec fn view(&self) -> Tick {
        Tick {
            symbol: self.symbol@,
            date_key: self.date_key,
            ts_ms: self.ts_ms,
            price: self.price,
            volume: self.volume,
        }
    }
}

impl<'a> ParsedTick<'a> {
    /// Reads an unsigned decimal number.
    pub fn parse_unsigned_u64(bytes: &[u8]) -> (res: Result<u64, ParseError>)
        ensures
            match res {
                Ok(v) => read(bytes@, u64::MAX as nat) == Ok::<nat, ParseError>(v as nat),
                Err(e) => read(bytes@, u64::MAX as nat) == Err::<nat, ParseError>(e),
            },
    {
        if bytes.is_empty() {
            return Err(ParseError::EmptyColumn);
        }
        let mut v: u64 = 0;
        let mut i: usize = 0;
        while i < bytes.len()
            invariant
                i <= bytes@.len(),
                all_digits(bytes@.take(i as int)),
                v == value(bytes@.take(i as int)),
            decreases bytes@.len() - i,
        {
            let b: u8 = bytes[i];
            if b < 48 || b > 57 {
                proof {
                    lemma_read_stops(bytes@, i as int, u64::MAX as nat);
                }
                return Err(ParseError::InvalidDigit);
            }
            proof {
                lemma_digits_extend(bytes@, i as int);
            }
            let d: u64 = (b - 48) as u64;
            v = match v.checked_mul(10) {
                Some(tens) => match tens.checked_add(d) {
                    Some(sum) => sum,
                    None => {
                        proof {
                            lemma_read_overflows(bytes@, i + 1, u64::MAX as nat);
                        }
                        return Err(ParseError::NumericOverflow);
                    },
                },
                None => {
                    proof {
                        lemma_read_overflows(bytes@, i + 1, u64::MAX as nat);
                    }
                    return Err(ParseError::NumericOverflow);
                },
            };
            i += 1;
        }
        proof {
            assert(bytes@.take(i as int) =~= bytes@);
            lemma_read_succeeds(bytes@, u64::MAX as nat);
        }
        Ok(v)
    }

    /// Finds the five columns of a row: for each, where it starts and where it ends.
    pub fn pinpoint_columns(line: &[u8]) -> (res: Result<[(usize, usize); 5], ParseError>)
        ensures
            match res {
                Ok(ranges) => {
                    &&& pieces(line@, COMMA).len() == 5
                    &&& ranges[0].0 == 0
                    &&& ranges[4].1 == line@.len()
                    &&& forall|k: int|
                        #![trigger ranges[k]]
                        0 <= k < 5 ==> {
                            &&& ranges[k].0 <= ranges[k].1 <= line@.len()
                            &&& line@.subrange(ranges[k].0 as int, ranges[k].1 as int) == pieces(
                                line@,
                                COMMA,
                            )[k]
                        }
                    &&& forall|k: int|
                        #![trigger ranges[k]]
                        1 <= k < 5 ==> ranges[k].0 == ranges[k - 1].1 + 1
                },
                Err(e) => column_error(pieces(line@, COMMA).len()) == Some(e),
            },
    {
        let mut ranges: [(usize, usize); 5] = [(0usize, 0usize);5];
        let mut field_idx: usize = 0;
        let mut start: usize = 0;
        let mut i: usize = 0;
        proof {
            assert(line@.take(0) =~= Seq::<u8>::empty());
            assert(line@.subrange(0, 0) =~= Seq::<u8>::empty());
        }
        while i < line.len()
            invariant
                start <= i <= line@.len(),
                field_idx <= 5,
                ranges@.len() == 5,
                pieces(line@.take(i as int), COMMA).len() == field_idx + 1,
                pieces(line@.take(i as int), COMMA).last() == line@.subrange(
                    start as int,
                    i as int,
                ),
                field_idx == 0 ==> start == 0,
                field_idx > 0 ==> ranges[0].0 == 0 && start == ranges[field_idx - 1].1 + 1,
                forall|k: int|
                    #![trigger ranges[k]]
                    0 <= k < field_idx ==> {
                        &&& ranges[k].0 <= ranges[k].1 <= i
                        &&& line@.subrange(ranges[k].0 as int, ranges[k].1 as int) == pieces(
                            line@.take(i as int),
                            COMMA,
                        )[k]
                    },
                forall|k: int|
                    #![trigger ranges[k]]
                    1 <= k < field_idx ==> ranges[k].0 == ranges[k - 1].1 + 1,
            decreases line@.len() - i,
        {
            proof {
                assert(line@.take(i + 1) =~= line@.take(i as int).push(line@[i as int]));
                lemma_pieces_push(line@.take(i as int), line@[i as int], COMMA);
                assert(line@.subrange(start as int, i + 1) =~= line@.subrange(
                    start as int,
                    i as int,
                ).push(line@[i as int]));
            }
            if line[i] == COMMA {
                if field_idx >= 5 {
                    proof {
                        lemma_pieces_grow(line@, i + 1, COMMA);
                    }
                    return Err(ParseError::TooManyColumns);
                }
                ranges[field_idx] = (start, i);
                field_idx += 1;
                start = i + 1;
                assert(line@.subrange(start as int, i + 1) =~= Seq::<u8>::empty());
            }
            i += 1;
        }
        assert(line@.take(i as int) =~= line@);
        if field_idx != 4 {
            return Err(ParseError::InvalidColumnCount);
        }
        ranges[4] = (start, line.len());
        Ok(ranges)
    }

    /// Reads one line of a tick file: `None` for an empty line and for the header.
    pub fn parse(line: &'a [u8]) -> (res: Result<Option<ParsedTick<'a>>, ParseError>)
        ensures
            outcome(res) == read_line(line@),
            res matches Ok(Some(tick)) ==> tick.ts_ms < MSEC_PER_DAY,
    {
        let row: &'a [u8] = if line.len() > 0 && line[line.len() - 1] == 13 {
            proof {
                assert(line@.subrange(0, line@.len() - 1) =~= line@.drop_last());
            }
            &line[0..line.len() - 1]
        } else {
            line
        };
        if row.is_empty() || same_bytes(row, "symbol,timestamp,price,volume,side".as_bytes()) {
            return Ok(None);
        }
        let columns: [(usize, usize); 5] = match Self::pinpoint_columns(row) {
            Ok(columns) => columns,
            Err(e) => return Err(e),
        };
        let symbol: &'a str = match text_of(&row[columns[0].0..columns[0].1]) {
            Ok(symbol) => symbol,
            Err(e) => return Err(ParseError::from(e)),
        };
        proof {
            encode_utf8_decode_utf8(symbol@);
        }
        let ts: ParsedTs = match ParsedTs::parse(&row[columns[1].0..columns[1].1]) {
            Ok(ts) => ts,
            Err(e) => return Err(e),
        };
        let price: u64 = match Self::parse_unsigned_u64(&row[columns[2].0..columns[2].1]) {
            Ok(price) => price,
            Err(e) => return Err(e),
        };
        let volume: u64 = match Self::parse_unsigned_u64(&row[columns[3].0..columns[3].1]) {
            Ok(volume) => volume,
            Err(e) => return Err(e),
        };
        Ok(
            Some(
                ParsedTick {
                    symbol,
                    date_key: ts.date_key,
                    ts_ms: ts.ms_of_day,
                    price,
                    volume,
                },
            ),
        )
    }
}

/// The number in bytes `from..to` of `b`.
pub open spec fn field(b: Seq<u8>, from: int, to: int) -> nat {
    value(b.subrange(from, to))
}

/// Bytes `from..to` of `b` are digits.
pub open spec fn digits_at(b: Seq<u8>, from: int, to: int) -> bool {
    all_digits(b.subrange(from, to))
}

/// `YYYY-MM-DDThh:mm:ss`: the marks between the numbers stand where they should.
pub open spec fn marks_in_place(b: Seq<u8>) -> bool {
    b[4] == 45 && b[7] == 45 && b[10] == 84 && b[13] == 58 && b[16] == 58
}

/// `YYYY-MM-DDThh:mm:ss`: the numbers are made of digits.
pub open spec fn numbers_in_place(b: Seq<u8>) -> bool {
    digits_at(b, 0, 4) && digits_at(b, 5, 7) && digits_at(b, 8, 10) && digits_at(b, 11, 13)
        && digits_at(b, 14, 16) && digits_at(b, 17, 19)
}

/// The numbers lie in the ranges of a calendar and a clock. Month lengths are
/// not looked at: the 30th of February passes.
pub open spec fn numbers_in_range(b: Seq<u8>) -> bool {
    &&& 1 <= field(b, 5, 7) <= 12
    &&& 1 <= field(b, 8, 10) <= 31
    &&& field(b, 11, 13) <= 23
    &&& field(b, 14, 16) <= 59
    &&& field(b, 17, 19) <= 59
}

/// Where the first three digits of the fraction end.
pub open spec fn fraction_end(b: Seq<u8>) -> int {
    if b.len() < 23 {
        b.len() as int
    } else {
        23
    }
}

/// Milliseconds from the fraction of a second: its first three digits, as
/// though it were padded with zeros; further digits are dropped.
pub open spec fn fraction_ms(b: Seq<u8>) -> nat {
    if b.len() <= 20 {
        0
    } else {
        let head = field(b, 20, fraction_end(b));
        if b.len() == 21 {
            head * 100
        } else if b.len() == 22 {
            head * 10
        } else {
            head
        }
    }
}

/// What reading `b` as `YYYY-MM-DDThh:mm:ss`, with or without a fraction after
/// a point, gives.
pub open spec fn read_timestamp(b: Seq<u8>) -> Result<ParsedTs, ParseError> {
    if b.len() < 19 || !marks_in_place(b) {
        Err(ParseError::InvalidDatetime)
    } else if !numbers_in_place(b) {
        Err(ParseError::InvalidDigit)
    } else if b.len() > 19 && (b[19] != 46 || b.len() == 20) {
        Err(ParseError::InvalidDatetime)
    } else if b.len() > 20 && !digits_at(b, 20, fraction_end(b)) {
        Err(ParseError::InvalidDigit)
    } else if b.len() > 23 && !digits_at(b, 23, b.len() as int) {
        Err(ParseError::InvalidDatetime)
    } else if !numbers_in_range(b) {
        Err(ParseError::InvalidDatetime)
    } else {
        Ok(
            ParsedTs {
                date_key: (field(b, 0, 4) * 10_000 + field(b, 5, 7) * 100 + field(
                    b,
                    8,
                    10,
                )) as u32,
                ms_of_day: (((field(b, 11, 13) * 60 + field(b, 14, 16)) * 60 + field(b, 17, 19))
                    * 1000 + fraction_ms(b)) as u32,
            },
        )
    }
}

/// The first row of a tick file.
pub open spec fn header() -> Seq<u8> {
    "symbol,timestamp,price,volume,side".spec_bytes()
}

/// `line` without the carriage return at its end, if it has one.
pub open spec fn without_cr(line: Seq<u8>) -> Seq<u8> {
    if line.len() > 0 && line.last() == 13 {
        line.drop_last()
    } else {
        line
    }
}

/// What reading `row` as a trade gives. The columns are looked at from left to
/// right, the last one not at all.
pub open spec fn read_row(row: Seq<u8>) -> Result<Tick, ParseError> {
    let columns = pieces(row, COMMA);
    match column_error(columns.len()) {
        Some(e) => Err(e),
        None => if !valid_utf8(columns[0]) {
            Err(ParseError::InvalidUtf8(utf8_error(columns[0])))
        } else {
            match read_timestamp(columns[1]) {
                Err(e) => Err(e),
                Ok(ts) => match read(columns[2], u64::MAX as nat) {
                    Err(e) => Err(e),
                    Ok(price) => match read(columns[3], u64::MAX as nat) {
                        Err(e) => Err(e),
                        Ok(volume) => Ok(
                            Tick {
                                symbol: decode_utf8(columns[0]),
                                date_key: ts.date_key,
                                ts_ms: ts.ms_of_day,
                                price: price as u64,
                                volume: volume as u64,
                            },
                        ),
                    },
                },
            }
        },
    }
}

/// What reading `line` gives: nothing for an empty line and for the header.
pub open spec fn read_line(line: Seq<u8>) -> Result<Option<Tick>, ParseError> {
    let row = without_cr(line);
    if row.len() == 0 || row == header() {
        Ok(None)
    } else {
        match read_row(row) {
            Ok(tick) => Ok(Some(tick)),
            Err(e) => Err(e),
        }
    }
}

/// The outcome of [`ParsedTick::parse`] as the models see it.
pub open spec fn outcome<'a>(
    res: Result<Option<ParsedTick<'a>>, ParseError>,
) -> Result<Option<Tick>, ParseError> {
    match res {
        Ok(Some(tick)) => Ok(Some(tick@)),
        Ok(None) => Ok(None),
        Err(e) => Err(e),
    }
}

/// Whether two byte slices are equal.
fn same_bytes(a: &[u8], b: &[u8]) -> (same: bool)
    ensures
        same == (a@ == b@),
{
    if a.len() != b.len() {
        return false;
    }
    let mut i: usize = 0;
    while i < a.len()
        invariant
            i <= a@.len(),
            a@.len() == b@.len(),
            a@.take(i as int) == b@.take(i as int),
        decreases a@.len() - i,
    {
        if a[i] != b[i] {
            return false;
        }
        i += 1;
        assert(a@.take(i as int) =~= a@.take(i - 1).push(a@[i - 1]));
        assert(b@.take(i as int) =~= b@.take(i - 1).push(b@[i - 1]));
    }
    assert(a@.take(i as int) =~= a@);
    assert(b@.take(i as int) =~= b@);
    true
}

/// Whether all bytes from `start` on are digits.
fn all_digits_from(bytes: &[u8], start: usize) -> (all: bool)
    requires
        start <= bytes@.len(),
    ensures
        all == digits_at(bytes@, start as int, bytes@.len() as int),
{
    let ghost rest = bytes@.subrange(start as int, bytes@.len() as int);
    let mut i: usize = start;
    while i < bytes.len()
        invariant
            start <= i <= bytes@.len(),
            rest == bytes@.subrange(start as int, bytes@.len() as int),
            forall|n: int| 0 <= n < i - start ==> is_digit(#[trigger] rest[n]),
        decreases bytes@.len() - i,
    {
        assert(rest[i - start] == bytes@[i as int]);
        if bytes[i] < 48 || bytes[i] > 57 {
            return false;
        }
        i += 1;
    }
    true
}

/// The first powers of ten.
pub proof fn lemma_small_pow10()
    ensures
        pow10(0) == 1,
        pow10(1) == 10,
        pow10(2) == 100,
        pow10(3) == 1000,
        pow10(4) == 10_000,
{
    reveal_with_fuel(pow10, 5);
}

/// Up to four bytes are a number, or one of them is no digit.
proof fn lemma_read_short(s: Seq<u8>)
    requires
        1 <= s.len() <= 4,
    ensures
        read(s, u32::MAX as nat) == if all_digits(s) {
            Ok::<nat, ParseError>(value(s))
        } else {
            Err::<nat, ParseError>(ParseError::InvalidDigit)
        },
        all_digits(s) ==> value(s) < pow10(s.len()),
{
    lemma_small_pow10();
    lemma_digit_run(s);
    let run = digit_run(s) as int;
    lemma_value_bound(s.take(run));
    if run == s.len() {
        assert(s.take(run) =~= s);
    }
}

/// A moment: a date as the number `YYYYMMDD`, and the milliseconds since midnight.
#[derive(Debug, Clone, Copy, PartialEq, Eq, Structural)]
pub struct ParsedTs {
    pub date_key: u32,
    pub ms_of_day: u32,
}

impl ParsedTs {
    /// Reads an unsigned decimal number.
    pub fn dec(bytes: &[u8]) -> (res: Result<u32, ParseError>)
        ensures
            match res {
                Ok(v) => read(bytes@, u32::MAX as nat) == Ok::<nat, ParseError>(v as nat),
                Err(e) => read(bytes@, u32::MAX as nat) == Err::<nat, ParseError>(e),
            },
    {
        if bytes.is_empty() {
            return Err(ParseError::EmptyColumn);
        }
        let mut v: u32 = 0;
        let mut i: usize = 0;
        while i < bytes.len()
            invariant
                i <= bytes@.len(),
                all_digits(bytes@.take(i as int)),
                v == value(bytes@.take(i as int)),
            decreases bytes@.len() - i,
        {
            let b: u8 = bytes[i];
            if b < 48 || b > 57 {
                proof {
                    lemma_read_stops(bytes@, i as int, u32::MAX as nat);
                }
                return Err(ParseError::InvalidDigit);
            }
            proof {
                lemma_digits_extend(bytes@, i as int);
            }
            let d: u32 = (b - 48) as u32;
            v = match v.checked_mul(10) {
                Some(tens) => match tens.checked_add(d) {
                    Some(sum) => sum,
                    None => {
                        proof {
                            lemma_read_overflows(bytes@, i + 1, u32::MAX as nat);
                        }
                        return Err(ParseError::NumericOverflow);
                    },
                },
                None => {
                    proof {
                        lemma_read_overflows(bytes@, i + 1, u32::MAX as nat);
                    }
                    return Err(ParseError::NumericOverflow);
                },
            };
            i += 1;
        }
        proof {
            assert(bytes@.take(i as int) =~= bytes@);
            lemma_read_succeeds(bytes@, u32::MAX as nat);
        }
        Ok(v)
    }

    /// Reads the number in `bytes[from..to]`.
    fn field_at(bytes: &[u8], from: usize, to: usize) -> (res: Result<u32, ParseError>)
        requires
            from < to <= bytes@.len(),
            to - from <= 4,
        ensures
            match res {
                Ok(v) => {
                    &&& digits_at(bytes@, from as int, to as int)
                    &&& v == field(bytes@, from as int, to as int)
                    &&& v < pow10((to - from) as nat)
                },
                Err(e) => !digits_at(bytes@, from as int, to as int) && e
                    == ParseError::InvalidDigit,
            },
    {
        proof {
            lemma_read_short(bytes@.subrange(from as int, to as int));
        }
        Self::dec(&bytes[from..to])
    }

    /// Reads `YYYY-MM-DDThh:mm:ss`, with or without a fraction of a second.
    pub fn parse(bytes: &[u8]) -> (res: Result<ParsedTs, ParseError>)
        ensures
            res == read_timestamp(bytes@),
            res matches Ok(ts) ==> ts.ms_of_day < MSEC_PER_DAY,
    {
        if bytes.len() < 19 {
            return Err(ParseError::InvalidDatetime);
        }
        if bytes[4] != 45 || bytes[7] != 45 || bytes[10] != 84 || bytes[13] != 58 || bytes[16]
            != 58 {
            return Err(ParseError::InvalidDatetime);
        }
        proof {
            lemma_small_pow10();
        }
        let year: u32 = match Self::field_at(bytes, 0, 4) {
            Ok(v) => v,
            Err(e) => return Err(e),
        };
        let month: u32 = match Self::field_at(bytes, 5, 7) {
            Ok(v) => v,
            Err(e) => return Err(e),
        };
        let day: u32 = match Self::field_at(bytes, 8, 10) {
            Ok(v) => v,
            Err(e) => return Err(e),
        };
        let hour: u32 = match Self::field_at(bytes, 11, 13) {
            Ok(v) => v,
            Err(e) => return Err(e),
        };
        let minute: u32 = match Self::field_at(bytes, 14, 16) {
            Ok(v) => v,
            Err(e) => return Err(e),
        };
        let second: u32 = match Self::field_at(bytes, 17, 19) {
            Ok(v) => v,
            Err(e) => return Err(e),
        };
        let msec: u32 = if bytes.len() == 19 {
            0
        } else {
            match Self::msec_at(bytes) {
                Ok(v) => v,
                Err(e) => return Err(e),
            }
        };
        if month < 1 || month > 12 || day < 1 || day > 31 {
            return Err(ParseError::InvalidDatetime);
        }
        if hour > 23 || minute > 59 || second > 59 || msec > 999 {
            return Err(ParseError::InvalidDatetime);
        }
        let date_key: u32 = year * 10_000 + month * 100 + day;
        let ms_of_day: u32 = ((hour * 60 + minute) * 60 + second) * 1000 + msec;
        Ok(ParsedTs { date_key, ms_of_day })
    }

    /// Reads the fraction of a second, from the point on.
    fn msec_at(bytes: &[u8]) -> (res: Result<u32, ParseError>)
        requires
            bytes@.len() > 19,
        ensures
            match res {
                Ok(v) => {
                    &&& bytes@[19] == 46
                    &&& bytes@.len() > 20
                    &&& digits_at(bytes@, 20, fraction_end(bytes@))
                    &&& bytes@.len() > 23 ==> digits_at(bytes@, 23, bytes@.len() as int)
                    &&& v == fraction_ms(bytes@)
                    &&& v < 1000
                },
                Err(e) => if bytes@[19] != 46 || bytes@.len() == 20 {
                    e == ParseError::InvalidDatetime
                } else if !digits_at(bytes@, 20, fraction_end(bytes@)) {
                    e == ParseError::InvalidDigit
                } else {
                    &&& bytes@.len() > 23
                    &&& !digits_at(bytes@, 23, bytes@.len() as int)
                    &&& e == ParseError::InvalidDatetime
                },
            },
    {
        if bytes[19] != 46 || bytes.len() == 20 {
            return Err(ParseError::InvalidDatetime);
        }
        let end: usize = if bytes.len() < 23 {
            bytes.len()
        } else {
            23
        };
        let head: u32 = match Self::field_at(bytes, 20, end) {
            Ok(v) => v,
            Err(e) => return Err(e),
        };
        if bytes.len() > 23 && !all_digits_from(bytes, 23) {
            return Err(ParseError::InvalidDatetime);
        }
        proof {
            lemma_small_pow10();
        }
        if end == 21 {
            Ok(head * 100)
        } else if end == 22 {
            Ok(head * 10)
        } else {
            Ok(head)
        }
    }
}

/// A trade is seen as what its fields hold, and what reading gave as that trade,
/// as nothing, or as its error.
pub proof fn law_trades_are_seen_as_they_are<'a>(tick: ParsedTick<'a>, e: ParseError)
    ensures
        tick@.symbol == tick.symbol@,
        tick@.date_key == tick.date_key,
        tick@.ts_ms == tick.ts_ms,
        tick@.price == tick.price,
        tick@.volume == tick.volume,
        outcome(Ok::<Option<ParsedTick<'a>>, ParseError>(Some(tick))) == Ok::<
            Option<Tick>,
            ParseError,
        >(Some(tick@)),
        outcome(Ok::<Option<ParsedTick<'a>>, ParseError>(None)) == Ok::<Option<Tick>, ParseError>(
            None,
        ),
        outcome(Err::<Option<ParsedTick<'a>>, ParseError>(e)) == Err::<Option<Tick>, ParseError>(e),
{
}

} // verus!
