use mx_task::clock::{DateKey, Hms, HmsMsec, MSEC_PER_HOUR, MSEC_PER_MIN, MSEC_PER_SEC};
use mx_task::decimal::{push_decimal, push_zero_padded};
use mx_task::error::AppError;
use mx_task::hour::HourAgg;
use mx_task::minute::MinuteAgg;
use mx_task::parse::{ParseError, ParsedTs};
use mx_task::rsi::RsiStep;
use mx_task::summary::Summary;

fn decimal(n: u128) -> String {
    let mut out = String::from("<");
    push_decimal(&mut out, n);
    out
}

fn padded(n: u32, width: u32) -> String {
    let mut out = String::from("<");
    push_zero_padded(&mut out, n, width);
    out
}

fn date(date_key: u32) -> String {
    let mut out = String::new();
    DateKey(date_key).push_text(&mut out);
    out
}

fn time(ms: u32) -> String {
    let mut out = String::new();
    Hms(ms).push_text(&mut out);
    out
}

fn time_msec(ms: u32) -> String {
    let mut out = String::new();
    HmsMsec(ms).push_text(&mut out);
    out
}

#[test]
fn numbers_are_written_in_decimal() {
    assert_eq!(decimal(0), "<0");
    assert_eq!(decimal(9), "<9");
    assert_eq!(decimal(10), "<10");
    assert_eq!(decimal(1973539357700), "<1973539357700");
    assert_eq!(decimal(u128::MAX), "<340282366920938463463374607431768211455");
    for n in [7u128, 99, 100, 4096, 1u128 << 77] {
        assert_eq!(decimal(n), format!("<{}", n));
    }
}

#[test]
fn numbers_are_padded_with_zeros() {
    assert_eq!(padded(5, 0), "<5");
    assert_eq!(padded(5, 1), "<5");
    assert_eq!(padded(5, 2), "<05");
    assert_eq!(padded(0, 4), "<0000");
    assert_eq!(padded(123, 2), "<123");
    assert_eq!(padded(u32::MAX, 12), "<004294967295");
}

#[test]
fn dates_are_written_with_dashes() {
    assert_eq!(date(20260707), "2026-07-07");
    assert_eq!(date(101), "0000-01-01");
    assert_eq!(date(99991231), "9999-12-31");
    assert_eq!(date(123451231), "12345-12-31");
}

#[test]
fn times_are_written_with_colons() {
    assert_eq!(time(0), "00:00:00");
    assert_eq!(time(9 * MSEC_PER_HOUR + 57 * MSEC_PER_MIN + MSEC_PER_SEC + 357), "09:57:01");
    assert_eq!(time(24 * MSEC_PER_HOUR), "24:00:00");
    assert_eq!(time_msec(9 * MSEC_PER_HOUR + 57 * MSEC_PER_MIN + 1_357), "09:57:01.357");
    assert_eq!(time_msec(7), "00:00:00.007");
    assert_eq!(time_msec(100 * MSEC_PER_HOUR), "100:00:00.000");
}

#[test]
fn what_is_written_is_read_back() {
    for (date_key, ms) in [(20260707u32, 0u32), (19991231, 86_399_999), (101, 34_621_357)] {
        let text = format!("{}T{}", date(date_key), time_msec(ms));
        let ts = ParsedTs::parse(text.as_bytes()).unwrap();
        assert_eq!((ts.date_key, ts.ms_of_day), (date_key, ms));
        let text = format!("{}T{}", date(date_key), time(ms));
        let ts = ParsedTs::parse(text.as_bytes()).unwrap();
        assert_eq!((ts.date_key, ts.ms_of_day), (date_key, ms - ms % 1000));
    }
}

#[test]
fn what_is_read_is_written_back() {
    for text in ["2026-07-07T09:00:14.125", "0007-01-31T23:59:59.9", "2024-02-30T00:00:00"] {
        let ts = ParsedTs::parse(text.as_bytes()).unwrap();
        assert_eq!(format!("{}T{}", date(ts.date_key), time(ts.ms_of_day)), text[..19]);
    }
    for text in ["2026-07-07T09:00:14.125", "0007-01-31T23:59:59.900"] {
        let ts = ParsedTs::parse(text.as_bytes()).unwrap();
        assert_eq!(format!("{}T{}", date(ts.date_key), time_msec(ts.ms_of_day)), text);
    }
}

#[test]
fn a_missing_fraction_is_zero() {
    for text in ["2026-07-07T09:00:14", "2026-07-07T09:00:60", "2026-07-07T0x:00:00", "2026/07/07T09:00:00"] {
        let with_zero = format!("{}.0", text);
        assert_eq!(ParsedTs::parse(with_zero.as_bytes()), ParsedTs::parse(text.as_bytes()));
    }
    for text in ["2026-07-07T09:00:14.1", "2026-07-07T09:00:60.12", "2026-07-07T09:00:00.x", "2026-07-07T09:00:00.123x"] {
        let with_zero = format!("{}0", text);
        assert_eq!(ParsedTs::parse(with_zero.as_bytes()), ParsedTs::parse(text.as_bytes()));
    }
}

#[test]
fn minute_lines_stop_before_the_index() {
    let mut bar = MinuteAgg::new(20260707, 9 * MSEC_PER_HOUR, 173400, 1080153);
    bar.high = 173900;
    bar.low = 173000;
    bar.close = 173900;
    let done = bar.finalize(RsiStep::First);
    assert_eq!(
        done.as_output("005930").text(),
        "MINUTE,2026-07-07,005930,09:00:00,09:01:00,173400,173900,173000,173900,1080153,"
    );
}

#[test]
fn hour_lines_stop_before_the_averages() {
    let hour = HourAgg::new(20260707, 23 * MSEC_PER_HOUR);
    assert_eq!(hour.as_output("005930").text(), "HOUR,2026-07-07,005930,23:00:00,24:00:00,");
}

#[test]
fn the_summary_has_two_lines() {
    let summary = Summary { total_volume: 11422344, total_pv: 1973539357700 };
    assert_eq!(
        summary.as_output().text(),
        "SUMMARY,TOTAL_VOLUME,11422344\nSUMMARY,TOTAL_TRADED_VALUE,1973539357700\n"
    );
    assert_eq!(
        Summary::default().as_output().text(),
        "SUMMARY,TOTAL_VOLUME,0\nSUMMARY,TOTAL_TRADED_VALUE,0\n"
    );
}

#[test]
fn refusals_have_messages() {
    let e = AppError::Parse { line_num: 12, source: ParseError::EmptyColumn };
    assert_eq!(e.message(), "line 12: empty column");
    let e = AppError::OutOfOrderDate { symbol: "AB34".to_owned(), got: 20260722, current: 20260723 };
    assert_eq!(e.message(), "out-of-order date for symbol=AB34: 2026-07-22 < 2026-07-23");
    let e = AppError::OutOfOrderTime {
        symbol: "AB34".to_owned(),
        date_key: 20260723,
        got_ms: 9 * MSEC_PER_HOUR + 9_000,
        current_ms: 9 * MSEC_PER_HOUR + 10_001,
    };
    assert_eq!(
        e.message(),
        "out-of-order timestamp for symbol=AB34, date=2026-07-23: 09:00:09.000 < 09:00:10.001"
    );
}
