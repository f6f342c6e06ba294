use mx_task::clock::{MSEC_PER_DAY, MSEC_PER_HOUR, MSEC_PER_MIN};
use mx_task::parse::{ParseError, ParsedTick, ParsedTs};
use mx_task::utf8::{text_of, Utf8Error};

fn error_of(line: &[u8]) -> ParseError {
    match ParsedTick::parse(line) {
        Err(e) => e,
        Ok(_) => panic!("the line should be refused"),
    }
}

fn is_skipped(line: &[u8]) -> bool {
    matches!(ParsedTick::parse(line), Ok(None))
}

fn moment(text: &str) -> Result<ParsedTs, ParseError> {
    ParsedTs::parse(text.as_bytes())
}

fn ms_of(text: &str) -> u32 {
    moment(text).unwrap().ms_of_day
}

#[test]
fn parser_accepts_five_columns() {
    let parsed = ParsedTick::parse(b"AB34,2026-07-23T09:57:01.357,100,7,BUY").unwrap().unwrap();

    assert_eq!(parsed.symbol, "AB34");
    assert_eq!(parsed.date_key, 20260723);
    assert_eq!(parsed.ts_ms, 9 * MSEC_PER_HOUR + 57 * MSEC_PER_MIN + 1_357);
    assert_eq!(parsed.price, 100);
    assert_eq!(parsed.volume, 7);
}

#[test]
fn empty_lines_and_the_header_are_skipped() {
    assert!(is_skipped(b""));
    assert!(is_skipped(b"\r"));
    assert!(is_skipped(b"symbol,timestamp,price,volume,side"));
    assert!(is_skipped(b"symbol,timestamp,price,volume,side\r"));
    assert!(!is_skipped(b"symbol,timestamp,price,volume,sid"));
    assert!(!is_skipped(b" symbol,timestamp,price,volume,side"));
    assert!(!is_skipped(b"\r\r"));
}

#[test]
fn one_carriage_return_is_dropped() {
    let parsed = ParsedTick::parse(b"A,2026-07-23T09:00:00,1,2,BUY\r").unwrap().unwrap();
    assert_eq!(parsed.price, 1);
    assert_eq!(parsed.volume, 2);
    assert_eq!(error_of(b"A,2026-07-23T09:00:00,1\r,2,BUY\r"), ParseError::InvalidDigit);
}

#[test]
fn the_side_is_not_looked_at() {
    for side in ["BUY", "SELL", "", "anything at all"] {
        let line = format!("A,2026-07-23T09:00:00,5,6,{}", side);
        let parsed = ParsedTick::parse(line.as_bytes()).unwrap().unwrap();
        assert_eq!((parsed.price, parsed.volume), (5, 6));
    }
    let parsed = ParsedTick::parse(b"A,2026-07-23T09:00:00,5,6,\xff").unwrap().unwrap();
    assert_eq!(parsed.symbol, "A");
}

#[test]
fn an_empty_symbol_is_a_symbol() {
    let parsed = ParsedTick::parse(b",2026-07-23T09:00:00,5,6,BUY").unwrap().unwrap();
    assert_eq!(parsed.symbol, "");
}

#[test]
fn a_symbol_may_be_any_text() {
    let line = "삼성전자,2026-07-23T09:00:00,5,6,BUY";
    let parsed = ParsedTick::parse(line.as_bytes()).unwrap().unwrap();
    assert_eq!(parsed.symbol, "삼성전자");
}

#[test]
fn rows_need_five_columns() {
    assert_eq!(error_of(b"A"), ParseError::InvalidColumnCount);
    assert_eq!(error_of(b"A,2026-07-23T09:00:00,1,2"), ParseError::InvalidColumnCount);
    assert_eq!(error_of(b"A,2026-07-23T09:00:00,1,2,BUY,"), ParseError::InvalidColumnCount);
    assert_eq!(error_of(b"A,2026-07-23T09:00:00,1,2,BUY,,"), ParseError::TooManyColumns);
    assert_eq!(error_of(b",,,,,,,,,"), ParseError::TooManyColumns);
}

#[test]
fn columns_are_found_between_commas() {
    let ranges = ParsedTick::pinpoint_columns(b"ab,,c,dd,e").unwrap();
    assert_eq!(ranges, [(0, 2), (3, 3), (4, 5), (6, 8), (9, 10)]);
    let ranges = ParsedTick::pinpoint_columns(b",,,,").unwrap();
    assert_eq!(ranges, [(0, 0), (1, 1), (2, 2), (3, 3), (4, 4)]);
    assert_eq!(ParsedTick::pinpoint_columns(b""), Err(ParseError::InvalidColumnCount));
    assert_eq!(ParsedTick::pinpoint_columns(b",,,,,"), Err(ParseError::InvalidColumnCount));
    assert_eq!(ParsedTick::pinpoint_columns(b",,,,,,"), Err(ParseError::TooManyColumns));
}

#[test]
fn prices_and_volumes_are_decimal() {
    assert_eq!(ParsedTick::parse_unsigned_u64(b"0"), Ok(0));
    assert_eq!(ParsedTick::parse_unsigned_u64(b"007"), Ok(7));
    assert_eq!(ParsedTick::parse_unsigned_u64(b"18446744073709551615"), Ok(u64::MAX));
    assert_eq!(ParsedTick::parse_unsigned_u64(b""), Err(ParseError::EmptyColumn));
    assert_eq!(ParsedTick::parse_unsigned_u64(b"+1"), Err(ParseError::InvalidDigit));
    assert_eq!(ParsedTick::parse_unsigned_u64(b"1 "), Err(ParseError::InvalidDigit));
    assert_eq!(ParsedTick::parse_unsigned_u64(b"1.5"), Err(ParseError::InvalidDigit));
    assert_eq!(
        ParsedTick::parse_unsigned_u64(b"18446744073709551616"),
        Err(ParseError::NumericOverflow)
    );
    assert_eq!(
        ParsedTick::parse_unsigned_u64(b"99999999999999999999999999"),
        Err(ParseError::NumericOverflow)
    );
}

#[test]
fn digits_are_taken_from_the_left() {
    assert_eq!(
        ParsedTick::parse_unsigned_u64(b"18446744073709551616x"),
        Err(ParseError::NumericOverflow)
    );
    assert_eq!(
        ParsedTick::parse_unsigned_u64(b"x18446744073709551616"),
        Err(ParseError::InvalidDigit)
    );
}

#[test]
fn short_numbers_are_decimal() {
    assert_eq!(ParsedTs::dec(b"0000"), Ok(0));
    assert_eq!(ParsedTs::dec(b"4294967295"), Ok(u32::MAX));
    assert_eq!(ParsedTs::dec(b"4294967296"), Err(ParseError::NumericOverflow));
    assert_eq!(ParsedTs::dec(b"42949672950"), Err(ParseError::NumericOverflow));
    assert_eq!(ParsedTs::dec(b""), Err(ParseError::EmptyColumn));
    assert_eq!(ParsedTs::dec(b"1a"), Err(ParseError::InvalidDigit));
}

#[test]
fn columns_are_looked_at_from_left_to_right() {
    assert_eq!(error_of(b"A,x,y,z,BUY"), ParseError::InvalidDatetime);
    assert_eq!(error_of(b"A,2026-07-23T09:00:00,,z,BUY"), ParseError::EmptyColumn);
    assert_eq!(error_of(b"A,2026-07-23T09:00:00,1,z,BUY"), ParseError::InvalidDigit);
    assert_eq!(error_of(b"A,2026-07-23T09:00:00,1,,BUY"), ParseError::EmptyColumn);
    assert!(matches!(error_of(b"\xff,x,y,z,BUY"), ParseError::InvalidUtf8(_)));
    assert_eq!(error_of(b"\xff,x,y,z"), ParseError::InvalidColumnCount);
}

#[test]
fn moments_have_a_date_and_a_time() {
    let ts = moment("2026-07-07T09:00:14.125").unwrap();
    assert_eq!(ts.date_key, 20260707);
    assert_eq!(ts.ms_of_day, 9 * MSEC_PER_HOUR + 14_125);
    assert_eq!(ms_of("2026-07-07T00:00:00"), 0);
    assert_eq!(ms_of("2026-07-07T23:59:59.999"), MSEC_PER_DAY - 1);
    assert_eq!(moment("0000-01-01T00:00:00").unwrap().date_key, 101);
    assert_eq!(moment("9999-12-31T00:00:00").unwrap().date_key, 99991231);
}

#[test]
fn fractions_are_padded_and_cut() {
    assert_eq!(ms_of("2026-07-07T00:00:01"), 1_000);
    assert_eq!(ms_of("2026-07-07T00:00:01.0"), 1_000);
    assert_eq!(ms_of("2026-07-07T00:00:01.5"), 1_500);
    assert_eq!(ms_of("2026-07-07T00:00:01.50"), 1_500);
    assert_eq!(ms_of("2026-07-07T00:00:01.05"), 1_050);
    assert_eq!(ms_of("2026-07-07T00:00:01.005"), 1_005);
    assert_eq!(ms_of("2026-07-07T00:00:01.0059999"), 1_005);
    assert_eq!(moment("2026-07-07T00:00:01."), Err(ParseError::InvalidDatetime));
    assert_eq!(moment("2026-07-07T00:00:01,5"), Err(ParseError::InvalidDatetime));
    assert_eq!(moment("2026-07-07T00:00:01.x"), Err(ParseError::InvalidDigit));
    assert_eq!(moment("2026-07-07T00:00:01.12x"), Err(ParseError::InvalidDigit));
    assert_eq!(moment("2026-07-07T00:00:01.123x"), Err(ParseError::InvalidDatetime));
    assert_eq!(moment("2026-07-07T00:00:01Z"), Err(ParseError::InvalidDatetime));
}

#[test]
fn moments_lie_in_the_calendar() {
    assert_eq!(moment("2026-02-30T00:00:00").unwrap().date_key, 20260230);
    for bad in [
        "2026-00-01T00:00:00",
        "2026-13-01T00:00:00",
        "2026-01-00T00:00:00",
        "2026-01-32T00:00:00",
        "2026-01-01T24:00:00",
        "2026-01-01T00:60:00",
        "2026-01-01T00:00:60",
        "2026/01-01T00:00:00",
        "2026-01/01T00:00:00",
        "2026-01-01 00:00:00",
        "2026-01-01T00-00:00",
        "2026-01-01T00:00-00",
        "2026-01-01T00:00",
        "",
    ] {
        assert_eq!(moment(bad), Err(ParseError::InvalidDatetime), "{}", bad);
    }
    assert_eq!(moment("20x6-01-01T00:00:00"), Err(ParseError::InvalidDigit));
    assert_eq!(moment("2026-1x-01T00:00:00"), Err(ParseError::InvalidDigit));
    assert_eq!(moment("2026-99-01T00:00:0x"), Err(ParseError::InvalidDigit));
}

#[test]
fn later_moments_have_larger_numbers() {
    let texts = [
        "2025-12-31T23:59:59.999",
        "2026-01-01T00:00:00",
        "2026-01-31T00:00:00",
        "2026-02-01T00:00:00.001",
        "2026-02-01T00:00:01",
        "2026-02-01T00:01:00",
        "2026-02-01T01:00:00",
    ];
    for pair in texts.windows(2) {
        let a = moment(pair[0]).unwrap();
        let b = moment(pair[1]).unwrap();
        assert!((a.date_key, a.ms_of_day) < (b.date_key, b.ms_of_day), "{:?}", pair);
    }
}

#[test]
fn text_is_taken_from_bytes() {
    assert_eq!(text_of(b"abc"), Ok("abc"));
    assert_eq!(text_of("가".as_bytes()), Ok("가"));
    assert_eq!(text_of(b"ab\xffc"), Err(Utf8Error { valid_up_to: 2, error_len: Some(1) }));
    assert_eq!(text_of(b"a\xea\xb0"), Err(Utf8Error { valid_up_to: 1, error_len: None }));
}

#[test]
fn text_errors_read_as_in_the_standard_library() {
    let samples: [&[u8]; 7] = [
        b"\xff",
        b"ok\x80",
        b"a\xea\xb0",
        b"a\xea\xb0z",
        b"\xed\xa0\x80",
        b"\xf0\x9f\x98",
        b"\xc0\xaf",
    ];
    for bytes in samples {
        let own = text_of(bytes).unwrap_err();
        let std = std::str::from_utf8(bytes).unwrap_err();
        assert_eq!(own.valid_up_to, std.valid_up_to());
        assert_eq!(own.error_len, std.error_len());
        assert_eq!(own.message(), std.to_string());
    }
}

#[test]
fn parse_errors_have_messages() {
    assert_eq!(ParseError::EmptyColumn.message(), "empty column");
    assert_eq!(ParseError::InvalidDigit.message(), "invalid digit");
    assert_eq!(ParseError::NumericOverflow.message(), "numeric overflow");
    assert_eq!(ParseError::InvalidDatetime.message(), "invalid datetime");
    assert_eq!(ParseError::InvalidColumnCount.message(), "invalid column count");
    assert_eq!(ParseError::TooManyColumns.message(), "too many columns");
    assert_eq!(
        error_of(b"a\xffb,2026-07-23T09:00:00,1,2,BUY").message(),
        "invalid utf-8: invalid utf-8 sequence of 1 bytes from index 1"
    );
    assert_eq!(
        error_of(b"ab\xea,2026-07-23T09:00:00,1,2,BUY").message(),
        "invalid utf-8: incomplete utf-8 byte sequence from index 2"
    );
}
