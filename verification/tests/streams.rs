use mx_task::agg::Aggregator;
use mx_task::error::AppError;
use mx_task::order::{key_order, KeyOrder};
use mx_task::parse::{ParseError, ParsedTick};
use mx_task::record::Record;
use mx_task::stream::{Stop, TickStream};
use mx_task::symbol::SymbolAgg;
use mx_task::table::SymbolTable;

/// The records without the columns that need averages.
fn render(records: &[Record]) -> String {
    let mut text = String::new();
    for record in records {
        match record {
            Record::Minute { symbol, bar } => {
                text += &bar.as_output(symbol).text();
                text += &format!("{:?}\n", bar.rsi14);
            }
            Record::Hour { symbol, hour } => {
                text += &hour.as_output(symbol).text();
                text += &format!("{}/{},{}\n", hour.pv_sum, hour.vol_sum, hour.twap_num);
            }
            Record::Summary { summary } => text += &summary.as_output().text(),
        }
    }
    text
}

fn run(input: &[u8], chunk: usize) -> (String, Result<(), Stop>) {
    let mut stream = TickStream::new();
    let mut out = Vec::new();
    let mut res = Ok(());
    for part in input.chunks(chunk) {
        res = stream.feed(part, &mut out);
        if res.is_err() {
            return (render(&out), res);
        }
    }
    if res.is_ok() {
        res = stream.finish(&mut out);
    }
    (render(&out), res)
}

fn whole(input: &[u8]) -> String {
    let (text, res) = run(input, input.len().max(1));
    assert!(res.is_ok());
    text
}

const SAMPLE: &[u8] = b"symbol,timestamp,price,volume,side\n\
B,2026-07-23T09:00:00,10,1,BUY\n\
A,2026-07-23T09:00:00,100,1,BUY\r\n\
\n\
A,2026-07-23T09:30:00.5,200,3,SELL\n\
B,2026-07-23T09:00:59.999,12,4,SELL\n\
A,2026-07-23T10:15:00,300,2,BUY";

const SAMPLE_OUT: &str = "MINUTE,2026-07-23,A,09:00:00,09:01:00,100,100,100,100,1,First\n\
HOUR,2026-07-23,A,09:00:00,10:00:00,700/4,539950000\n\
MINUTE,2026-07-23,A,09:30:00,09:31:00,200,200,200,200,3,Warmup(Gain { from: 100, to: 200 })\n\
MINUTE,2026-07-23,A,10:15:00,10:16:00,300,300,300,300,2,Warmup(Gain { from: 200, to: 300 })\n\
HOUR,2026-07-23,A,10:00:00,11:00:00,600/2,990000000\n\
MINUTE,2026-07-23,B,09:00:00,09:01:00,10,12,10,12,5,First\n\
HOUR,2026-07-23,B,09:00:00,10:00:00,58/5,43080002\n\
SUMMARY,TOTAL_VOLUME,11\n\
SUMMARY,TOTAL_TRADED_VALUE,1358\n";

#[test]
fn an_input_becomes_lines() {
    assert_eq!(whole(SAMPLE), SAMPLE_OUT);
}

#[test]
fn chunks_make_no_difference() {
    for chunk in 1..SAMPLE.len() + 1 {
        let (text, res) = run(SAMPLE, chunk);
        assert!(res.is_ok());
        assert_eq!(text, SAMPLE_OUT);
    }
}

#[test]
fn a_last_line_may_lack_its_end() {
    let mut ended = SAMPLE.to_vec();
    ended.push(b'\n');
    assert_eq!(whole(&ended), SAMPLE_OUT);
}

#[test]
fn an_empty_input_has_empty_totals() {
    let zero = "SUMMARY,TOTAL_VOLUME,0\nSUMMARY,TOTAL_TRADED_VALUE,0\n";
    assert_eq!(whole(b""), zero);
    assert_eq!(whole(b"symbol,timestamp,price,volume,side\r\n\r\n\n"), zero);
}

#[test]
fn what_a_symbol_gives_does_not_depend_on_others() {
    let alone = whole(
        b"A,2026-07-23T09:00:00,100,1,BUY\n\
          A,2026-07-23T09:30:00.5,200,3,SELL\n\
          A,2026-07-23T10:15:00,300,2,BUY\n",
    );
    let own: Vec<&str> = alone.lines().filter(|l| l.contains(",A,")).collect();
    let among: Vec<&str> = SAMPLE_OUT.lines().filter(|l| l.contains(",A,")).collect();
    assert_eq!(own, among);
}

#[test]
fn symbols_end_in_the_order_of_their_bytes() {
    let text = whole(
        "b,2026-07-23T09:00:00,1,1,BUY\n\
         가,2026-07-23T09:00:00,1,1,BUY\n\
         B,2026-07-23T09:00:00,1,1,BUY\n\
         aa,2026-07-23T09:00:00,1,1,BUY\n\
         a,2026-07-23T09:00:00,1,1,BUY\n\
         ,2026-07-23T09:00:00,1,1,BUY\n"
            .as_bytes(),
    );
    let symbols: Vec<&str> = text
        .lines()
        .filter(|l| l.starts_with("MINUTE"))
        .map(|l| l.split(',').nth(2).unwrap())
        .collect();
    assert_eq!(symbols, ["", "B", "a", "aa", "b", "가"]);
}

#[test]
fn lines_add_up_to_the_totals() {
    let mut stream = TickStream::new();
    let mut out = Vec::new();
    assert!(stream.feed(SAMPLE, &mut out).is_ok());
    assert!(stream.finish(&mut out).is_ok());
    let (mut by_minute, mut by_hour, mut value) = (0u128, 0u128, 0u128);
    for record in &out {
        match record {
            Record::Minute { bar, .. } => by_minute += bar.volume as u128,
            Record::Hour { hour, .. } => {
                by_hour += hour.vol_sum as u128;
                value += hour.pv_sum;
            }
            Record::Summary { summary } => {
                assert_eq!(summary.total_volume, by_minute);
                assert_eq!(summary.total_volume, by_hour);
                assert_eq!(summary.total_pv, value);
            }
        }
    }
    assert_eq!((by_minute, value), (11, 1358));
}

#[test]
fn a_bad_line_is_named_by_its_number() {
    let input = b"symbol,timestamp,price,volume,side\n\nA,2026-07-23T09:00:00,1,1,BUY\nA,x,1,1,BUY\nzzz\n";
    for chunk in [1, 7, 30, 1000] {
        let (text, res) = run(input, chunk);
        assert_eq!(text, "");
        match res {
            Err(Stop::Refused(e)) => {
                assert!(matches!(e, AppError::Parse { line_num: 4, source: ParseError::InvalidDatetime }));
                assert_eq!(e.message(), "line 4: invalid datetime");
            }
            _ => panic!("the fourth line should be refused"),
        }
    }
    let (_, res) = run(b"\n\n1,2", 2);
    match res {
        Err(Stop::Refused(e)) => assert_eq!(e.message(), "line 3: invalid column count"),
        _ => panic!("the last line should be refused"),
    }
}

#[test]
fn what_came_before_a_bad_line_stands() {
    let input = b"A,2026-07-23T09:00:00,1,1,BUY\nA,2026-07-23T09:01:00,2,1,BUY\nA,2026-07-23T09:00:30,3,1,BUY\n";
    let (text, res) = run(input, 16);
    assert_eq!(text, "MINUTE,2026-07-23,A,09:00:00,09:01:00,1,1,1,1,1,First\n");
    match res {
        Err(Stop::Refused(e)) => assert_eq!(
            e.message(),
            "out-of-order timestamp for symbol=A, date=2026-07-23: 09:00:30.000 < 09:01:00.000"
        ),
        _ => panic!("the last line should be refused"),
    }
    let (_, res) = run(b"A,2026-07-23T09:00:00,1,1,BUY\nA,2026-07-22T09:01:00,2,1,BUY\n", 99);
    match res {
        Err(Stop::Refused(e)) => assert_eq!(
            e.message(),
            "out-of-order date for symbol=A: 2026-07-22 < 2026-07-23"
        ),
        _ => panic!("an earlier date should be refused"),
    }
}

#[test]
fn symbols_may_be_at_different_times() {
    let text = whole(
        b"A,2026-07-23T09:00:00,1,1,BUY\n\
          B,2026-07-22T08:00:00,1,1,BUY\n\
          A,2026-07-23T09:00:00,2,1,BUY\n",
    );
    assert!(text.contains("MINUTE,2026-07-23,A,09:00:00,09:01:00,1,2,1,2,2,First\n"));
    assert!(text.contains("MINUTE,2026-07-22,B,08:00:00,08:01:00,1,1,1,1,1,First\n"));
}

#[test]
fn a_sum_that_grows_too_large_stops_it() {
    let input = b"A,2026-07-23T09:00:00,1,18446744073709551615,BUY\nA,2026-07-23T09:05:00,1,1,BUY\n";
    let (text, res) = run(input, 10);
    assert_eq!(text, "");
    assert!(matches!(res, Err(Stop::Overflow { line_num: 2 })));
    let input = b"A,2026-07-23T09:00:00,1,18446744073709551615,BUY\nA,2026-07-23T10:00:00,1,1,BUY\n";
    assert!(whole(input).ends_with(
        "SUMMARY,TOTAL_VOLUME,18446744073709551616\nSUMMARY,TOTAL_TRADED_VALUE,18446744073709551616\n"
    ));
}

#[test]
fn lines_are_counted() {
    let mut stream = TickStream::new();
    let mut out = Vec::new();
    assert_eq!(stream.line_num(), 0);
    assert!(stream.feed(b"\n\n", &mut out).is_ok());
    assert_eq!(stream.line_num(), 2);
    assert!(stream.feed(b"symbol,timestamp,", &mut out).is_ok());
    assert_eq!(stream.line_num(), 2);
    assert!(stream.feed(b"price,volume,side", &mut out).is_ok());
    assert!(stream.finish(&mut out).is_ok());
    assert_eq!(stream.line_num(), 3);
}

#[test]
fn refused_lines_change_nothing() {
    let mut agg = Aggregator::new();
    let mut out = Vec::new();
    assert!(agg.process_line(b"A,2026-07-23T09:00:00,5,2,BUY", 1, &mut out).is_ok());
    assert!(agg.process_line(b"A,2026-07-23T08:00:00,9,9,BUY", 2, &mut out).is_err());
    assert!(agg.process_line(b"A,2026-07-23T09:00:00,9,BUY", 3, &mut out).is_err());
    assert!(agg.process_line(b"symbol,timestamp,price,volume,side", 4, &mut out).is_ok());
    assert!(out.is_empty());
    agg.flush(&mut out);
    assert_eq!(
        render(&out),
        "MINUTE,2026-07-23,A,09:00:00,09:01:00,5,5,5,5,2,First\n\
         HOUR,2026-07-23,A,09:00:00,10:00:00,10/2,18000000\n\
         SUMMARY,TOTAL_VOLUME,2\n\
         SUMMARY,TOTAL_TRADED_VALUE,10\n"
    );
}

#[test]
fn what_was_read_is_taken() {
    let mut agg = Aggregator::new();
    let mut out = Vec::new();
    let tick = ParsedTick { symbol: "A", date_key: 20260723, ts_ms: 0, price: 5, volume: 2 };
    assert!(agg.room_for(&Ok(Some(tick))));
    assert!(agg.process_parsed(Ok(Some(tick)), 1, &mut out).is_ok());
    assert!(agg.process_tick(&tick, &mut out).is_ok());
    assert!(agg.process_parsed(Ok(None), 2, &mut out).is_ok());
    match agg.process_parsed(Err(ParseError::InvalidDigit), 3, &mut out) {
        Err(e) => assert_eq!(e.message(), "line 3: invalid digit"),
        Ok(()) => panic!("what cannot be read should be refused"),
    }
    let large = ParsedTick { volume: u64::MAX - 3, ..tick };
    assert!(!agg.room_for(&Ok(Some(large))));
    let fits = ParsedTick { volume: u64::MAX - 4, ..tick };
    assert!(agg.room_for(&Ok(Some(fits))));
    agg.flush(&mut out);
    agg.flush(&mut out);
    assert_eq!(
        render(&out[2..]),
        "SUMMARY,TOTAL_VOLUME,4\nSUMMARY,TOTAL_TRADED_VALUE,20\n\
         SUMMARY,TOTAL_VOLUME,4\nSUMMARY,TOTAL_TRADED_VALUE,20\n"
    );
}

#[test]
fn texts_sort_by_their_bytes() {
    let texts = ["", "A", "AB", "B", "a", "é", "가", "😀"];
    for a in texts {
        for b in texts {
            let order = key_order(a, b);
            assert_eq!(order == KeyOrder::Before, a < b, "{} {}", a, b);
            assert_eq!(order == KeyOrder::Same, a == b, "{} {}", a, b);
            assert_eq!(order == KeyOrder::After, a > b, "{} {}", a, b);
        }
    }
}

#[test]
fn states_are_found_under_their_symbols() {
    let mut table = SymbolTable::new();
    assert_eq!(table.find("M"), (0, false));
    for (n, symbol) in ["M", "C", "X", "D"].iter().enumerate() {
        let mut state = SymbolAgg::default();
        state.last_seen_ts_ms = Some(n as u32);
        let found = table.find(symbol);
        assert!(!found.1);
        table.put_at(found, symbol, state);
    }
    assert_eq!(table.len(), 4);
    let symbols: Vec<&str> = (0..4).map(|i| table.symbol_at(i)).collect();
    assert_eq!(symbols, ["C", "D", "M", "X"]);
    assert_eq!(table.find("D"), (1, true));
    assert_eq!(table.find("E"), (2, false));
    assert_eq!(table.find("Z"), (4, false));
    let mut state = SymbolAgg::default();
    state.last_seen_ts_ms = Some(77);
    table.put_at((1, true), "D", state);
    assert_eq!(table.len(), 4);
    assert_eq!(table.state_at(1).last_seen_ts_ms, Some(77));
    assert_eq!(table.state_at(0).last_seen_ts_ms, Some(1));
    assert_eq!(table.state_at(2).last_seen_ts_ms, Some(0));
    assert_eq!(table.state_at(3).last_seen_ts_ms, Some(2));
}

#[test]
fn lines_may_be_handed_over_with_any_numbers() {
    let mut agg = Aggregator::new();
    let mut out = Vec::new();
    let lines: [(&[u8], usize, bool); 8] = [
        (b"B,2026-07-23T09:00:00,2,5,BUY", 9, true),
        (b"A\nB,2026-07-23T09:00:00,3,1,BUY", 9, true),
        (b"B,2026-07-23T08:59:59,7,7,BUY", 0, false),
        (b"B,2026-07-23T09:00:30,4,5,BUY", 1, true),
        (b"A\nB,2026-07-23T10:00:00,3,2,BUY", 2, true),
        (b"nothing", 3, false),
        (b"B,2026-07-24T09:00:00,1,1,BUY", 3, true),
        (b"\r", 3, true),
    ];
    for (line, line_num, ok) in lines {
        assert_eq!(agg.process_line(line, line_num, &mut out).is_ok(), ok);
    }
    agg.flush(&mut out);

    let (mut minutes, mut hours) = (Vec::new(), Vec::new());
    let (mut by_minute, mut by_hour, mut value) = (0u128, 0u128, 0u128);
    for record in &out {
        match record {
            Record::Minute { symbol, bar } => {
                minutes.push((symbol.as_str(), bar.date_key, bar.minute_start_ms));
                by_minute += bar.volume as u128;
            }
            Record::Hour { symbol, hour } => {
                hours.push((symbol.as_str(), hour.date_key, hour.hour_start_ms));
                by_hour += hour.vol_sum as u128;
                value += hour.pv_sum;
            }
            Record::Summary { summary } => {
                assert_eq!((summary.total_volume, summary.total_pv), (14, 40));
            }
        }
    }
    let expected = [
        ("A\nB", 20260723, 32_400_000),
        ("B", 20260723, 32_400_000),
        ("A\nB", 20260723, 36_000_000),
        ("B", 20260724, 32_400_000),
    ];
    assert_eq!(minutes, expected);
    assert_eq!(hours, expected);
    assert_eq!((by_minute, by_hour, value), (14, 14, 40));
    assert!(matches!(out.last(), Some(Record::Summary { .. })));
}
