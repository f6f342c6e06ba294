use mx_task::clock::{MSEC_PER_HOUR, MSEC_PER_MIN};
use mx_task::error::AppError;
use mx_task::hour::HourAgg;
use mx_task::minute::MinuteAgg;
use mx_task::parse::ParsedTick;
use mx_task::record::Record;
use mx_task::rsi::{Change, RsiState, RsiStep};
use mx_task::summary::Summary;
use mx_task::symbol::SymbolAgg;

fn tick<'a>(symbol: &'a str, date_key: u32, ts_ms: u32, price: u64, volume: u64) -> ParsedTick<'a> {
    ParsedTick {
        symbol,
        date_key,
        ts_ms,
        price,
        volume,
    }
}

/// The averages that go with the steps of the index.
#[derive(Default)]
struct Strength {
    gain_sum: f64,
    loss_sum: f64,
    avg_gain: f64,
    avg_loss: f64,
}

impl Strength {
    fn on_step(&mut self, step: RsiStep) -> Option<f64> {
        match step {
            RsiStep::First => None,
            RsiStep::Warmup(change) => {
                let (gain, loss) = gain_and_loss(change);
                self.gain_sum += gain;
                self.loss_sum += loss;
                None
            }
            RsiStep::Seed(change) => {
                let (gain, loss) = gain_and_loss(change);
                self.gain_sum += gain;
                self.loss_sum += loss;
                self.avg_gain = self.gain_sum / 14.0;
                self.avg_loss = self.loss_sum / 14.0;
                Some(self.value())
            }
            RsiStep::Smooth(change) => {
                let (gain, loss) = gain_and_loss(change);
                self.avg_gain = (self.avg_gain * 13.0 + gain) / 14.0;
                self.avg_loss = (self.avg_loss * 13.0 + loss) / 14.0;
                Some(self.value())
            }
        }
    }

    fn value(&self) -> f64 {
        if self.avg_loss == 0.0 {
            if self.avg_gain == 0.0 { 50.0 } else { 100.0 }
        } else {
            100.0 - (100.0 / (1.0 + self.avg_gain / self.avg_loss))
        }
    }
}

fn gain_and_loss(change: Change) -> (f64, f64) {
    match change {
        Change::Flat => (0.0, 0.0),
        Change::Gain { from, to } => (to as f64 - from as f64, 0.0),
        Change::Loss { from, to } => (0.0, from as f64 - to as f64),
    }
}

fn render(records: &[Record]) -> String {
    let mut strength = Strength::default();
    let mut text = String::new();
    for record in records {
        match record {
            Record::Minute { symbol, bar } => {
                text += &bar.as_output(symbol).text();
                if let Some(rsi) = strength.on_step(bar.rsi14) {
                    text += &format!("{:.8}", rsi);
                }
                text += "\n";
            }
            Record::Hour { symbol, hour } => {
                text += &hour.as_output(symbol).text();
                text += &format!("{:.8},", hour.pv_sum as f64 / hour.vol_sum as f64);
                text += &format!("{:.8}\n", hour.twap_num as f64 / MSEC_PER_HOUR as f64);
            }
            Record::Summary { summary } => text += &summary.as_output().text(),
        }
    }
    text
}

#[test]
fn rsi_is_none() {
    let mut rsi = RsiState::default();
    let mut strength = Strength::default();

    for close in [100, 101, 102, 103, 104, 105, 106, 107, 108, 109, 110, 111, 112, 113] {
        let step = rsi.on_close(close);
        assert!(!step.has_value());
        assert!(strength.on_step(step).is_none());
    }

    let first = rsi.on_close(114);
    assert!(first.has_value());
    assert!(strength.on_step(first).is_some());
}

#[test]
fn rsi_is_100() {
    let mut rsi = RsiState::default();
    let mut strength = Strength::default();
    let mut value = None;

    for close in 1..=15 {
        value = strength.on_step(rsi.on_close(close));
    }

    let rsi = value.expect("rsi should be available");
    assert!((rsi - 100.0).abs() < 1e-12);
}

#[test]
fn rsi_is_50() {
    let mut rsi = RsiState::default();
    let mut strength = Strength::default();
    let mut value = None;

    for _ in 0..15 {
        value = strength.on_step(rsi.on_close(100));
    }

    let rsi = value.expect("rsi should be available");
    assert!((rsi - 50.0).abs() < 1e-12);
}

#[test]
fn flush_previous_minute() {
    let mut state = SymbolAgg::default();
    let mut out = Vec::new();

    let t1 = tick("AB34", 20260723, 9 * MSEC_PER_HOUR + 1_000, 100, 1);
    let t2 = tick("AB34", 20260723, 9 * MSEC_PER_HOUR + 30_000, 101, 2);
    let t3 = tick("AB34", 20260723, 9 * MSEC_PER_HOUR + MSEC_PER_MIN + 1_000, 102, 3);

    state.record_parsed_tick(&t1, &mut out);
    state.record_parsed_tick(&t2, &mut out);
    state.record_parsed_tick(&t3, &mut out);

    assert!(state.cur_min.is_some());

    state.flush("AB34", &mut out);

    assert!(state.cur_min.is_none());

    let s = render(&out);

    assert!(s.contains("MINUTE,2026-07-23,AB34,09:00:00,09:01:00,100,101,100,101,3,"));
    assert!(s.contains("MINUTE,2026-07-23,AB34,09:01:00,09:02:00,102,102,102,102,3,"));
    assert!(s.contains("HOUR,2026-07-23,AB34,09:00:00,10:00:00,101.33333333,101.94694444"));
}

#[test]
fn flush_previous_day() {
    let mut state = SymbolAgg::default();
    let mut out = Vec::new();

    let t1 = tick("AB34", 20260723, 23 * MSEC_PER_HOUR + 59 * MSEC_PER_MIN, 100, 1);
    let t2 = tick("AB34", 20260724, 0, 101, 1);

    state.record_parsed_tick(&t1, &mut out);
    state.record_parsed_tick(&t2, &mut out);

    assert!(state.cur_hour.is_some());

    state.flush("AB34", &mut out);

    assert!(state.cur_hour.is_none());

    let s = render(&out);

    assert!(s.contains("MINUTE,2026-07-23,AB34,23:59:00,24:00:00,100,100,100,100,1,"));
    assert!(s.contains("HOUR,2026-07-23,AB34,23:00:00,24:00:00,100.00000000,1.66666667"));
    assert!(s.contains("MINUTE,2026-07-24,AB34,00:00:00,00:01:00,101,101,101,101,1,"));
    assert!(s.contains("HOUR,2026-07-24,AB34,00:00:00,01:00:00,101.00000000,101.00000000"));
}

#[test]
fn err_out_of_order_ts() {
    let mut state = SymbolAgg::default();
    let t1 = tick("AB34", 20260723, 9 * MSEC_PER_HOUR + 10_000, 100, 1);
    let t2 = tick("AB34", 20260723, 9 * MSEC_PER_HOUR + 9_000, 101, 1);

    state.cur_date_key = Some(t1.date_key);
    state.last_seen_ts_ms = Some(t1.ts_ms);

    match state.check_ts_order(&t2).unwrap_err() {
        AppError::OutOfOrderTime { .. } => {}
        other => panic!("unexpected error: {}", other.message()),
    }
}

#[test]
fn only_earlier_trades_are_refused() {
    let mut state = SymbolAgg::default();
    let mut out = Vec::new();
    let now = tick("A", 20260723, 5_000, 1, 1);
    assert!(state.check_ts_order(&now).is_ok());
    state.record_parsed_tick(&now, &mut out);

    assert!(state.check_ts_order(&tick("A", 20260723, 5_000, 1, 1)).is_ok());
    assert!(state.check_ts_order(&tick("A", 20260723, 5_001, 1, 1)).is_ok());
    assert!(state.check_ts_order(&tick("A", 20260724, 0, 1, 1)).is_ok());
    match state.check_ts_order(&tick("A", 20260722, 9_000, 1, 1)) {
        Err(AppError::OutOfOrderDate { symbol, got, current }) => {
            assert_eq!((symbol.as_str(), got, current), ("A", 20260722, 20260723));
        }
        _ => panic!("an earlier date should be refused"),
    }
    match state.check_ts_order(&tick("A", 20260723, 4_999, 1, 1)) {
        Err(AppError::OutOfOrderTime { symbol, date_key, got_ms, current_ms }) => {
            assert_eq!((symbol.as_str(), date_key), ("A", 20260723));
            assert_eq!((got_ms, current_ms), (4_999, 5_000));
        }
        _ => panic!("an earlier time should be refused"),
    }
}

#[test]
fn the_index_follows_its_schedule() {
    let mut rsi = RsiState::default();
    assert_eq!(rsi.on_close(10), RsiStep::First);
    for n in 1..14 {
        assert_eq!(rsi.on_close(10 + n), RsiStep::Warmup(Change::Gain { from: 9 + n, to: 10 + n }));
    }
    assert_eq!(rsi.on_close(20), RsiStep::Seed(Change::Loss { from: 23, to: 20 }));
    assert_eq!(rsi.on_close(20), RsiStep::Smooth(Change::Flat));
    assert_eq!(rsi.on_close(21), RsiStep::Smooth(Change::Gain { from: 20, to: 21 }));
    assert_eq!(rsi, RsiState { prev_close: Some(21), warmup_count: 14 });
}

#[test]
fn the_index_is_zero_when_prices_only_fall() {
    let mut rsi = RsiState::default();
    let mut strength = Strength::default();
    let mut value = None;
    for n in 0..20 {
        value = strength.on_step(rsi.on_close(100 - n));
    }
    assert_eq!(value, Some(0.0));
}

#[test]
fn minutes_start_on_the_minute() {
    assert_eq!(MinuteAgg::floor_ms(0), 0);
    assert_eq!(MinuteAgg::floor_ms(59_999), 0);
    assert_eq!(MinuteAgg::floor_ms(60_000), 60_000);
    assert_eq!(MinuteAgg::floor_ms(u32::MAX), u32::MAX - u32::MAX % 60_000);
    assert_eq!(HourAgg::floor_ms(3_599_999), 0);
    assert_eq!(HourAgg::floor_ms(3_600_000), 3_600_000);
    assert_eq!(HourAgg::floor_ms(86_399_999), 82_800_000);
}

#[test]
fn a_bar_spans_its_trades() {
    let mut bar = MinuteAgg::new(20260723, 60_000, 100, 5);
    bar.record_parsed_tick(&tick("A", 20260723, 61_000, 130, 6));
    bar.record_parsed_tick(&tick("A", 20260723, 62_000, 90, 7));
    bar.record_parsed_tick(&tick("A", 20260723, 63_000, 110, 8));
    assert_eq!((bar.open, bar.high, bar.low, bar.close), (100, 130, 90, 110));
    assert_eq!(bar.volume, 26);
    let done = bar.finalize(RsiStep::First);
    assert_eq!((done.open, done.high, done.low, done.close), (100, 130, 90, 110));
    assert_eq!((done.date_key, done.minute_start_ms, done.volume), (20260723, 60_000, 26));
}

#[test]
fn the_area_grows_with_the_time_a_price_holds() {
    let mut hour = HourAgg::new(20260723, 0);
    hour.add_twap(1_000);
    assert_eq!(hour.twap_num, 0);
    hour.record_parsed_tick(&tick("A", 20260723, 10, 7, 2));
    assert_eq!((hour.pv_sum, hour.vol_sum, hour.twap_num), (14, 2, 0));
    hour.record_parsed_tick(&tick("A", 20260723, 30, 11, 3));
    assert_eq!((hour.pv_sum, hour.vol_sum, hour.twap_num), (47, 5, 140));
    hour.add_twap(30);
    hour.add_twap(5);
    assert_eq!((hour.twap_num, hour.last_ts_ms), (140, Some(30)));
    hour.add_twap(hour.end_ms());
    assert_eq!(hour.twap_num, 140 + 11 * (3_600_000 - 30));
    assert_eq!(hour.last_ts_ms, Some(3_600_000));
}

#[test]
fn an_earlier_price_carries_over() {
    let hour = HourAgg::with_carry(20260723, 3_600_000, Some(9));
    assert_eq!((hour.last_price, hour.last_ts_ms), (Some(9), Some(3_600_000)));
    let hour = HourAgg::with_carry(20260723, 3_600_000, None);
    assert_eq!((hour.last_price, hour.last_ts_ms), (None, None));
}

#[test]
fn an_hour_is_put_out_before_its_last_minute() {
    let mut state = SymbolAgg::default();
    let mut out = Vec::new();
    state.record_parsed_tick(&tick("A", 20260723, 9 * MSEC_PER_HOUR, 100, 1), &mut out);
    state.record_parsed_tick(&tick("A", 20260723, 9 * MSEC_PER_HOUR + 30 * MSEC_PER_MIN, 200, 3), &mut out);
    state.record_parsed_tick(&tick("A", 20260723, 10 * MSEC_PER_HOUR + 15 * MSEC_PER_MIN, 300, 2), &mut out);
    state.flush("A", &mut out);
    assert_eq!(
        render(&out),
        "MINUTE,2026-07-23,A,09:00:00,09:01:00,100,100,100,100,1,\n\
         HOUR,2026-07-23,A,09:00:00,10:00:00,175.00000000,150.00000000\n\
         MINUTE,2026-07-23,A,09:30:00,09:31:00,200,200,200,200,3,\n\
         MINUTE,2026-07-23,A,10:15:00,10:16:00,300,300,300,300,2,\n\
         HOUR,2026-07-23,A,10:00:00,11:00:00,300.00000000,275.00000000\n"
    );
}

#[test]
fn hours_without_trades_are_passed_over() {
    let mut state = SymbolAgg::default();
    let mut out = Vec::new();
    state.record_parsed_tick(&tick("A", 20260723, 9 * MSEC_PER_HOUR, 100, 1), &mut out);
    state.record_parsed_tick(&tick("A", 20260723, 14 * MSEC_PER_HOUR, 200, 1), &mut out);
    state.flush("A", &mut out);
    let s = render(&out);
    assert_eq!(s.matches("HOUR,").count(), 2);
    assert!(s.contains("HOUR,2026-07-23,A,14:00:00,15:00:00,200.00000000,200.00000000"));
}

#[test]
fn a_new_date_starts_without_a_price() {
    let mut state = SymbolAgg::default();
    let mut out = Vec::new();
    state.record_parsed_tick(&tick("A", 20260723, 9 * MSEC_PER_HOUR, 100, 1), &mut out);
    state.record_parsed_tick(&tick("A", 20260724, 10 * MSEC_PER_HOUR + 30 * MSEC_PER_MIN, 200, 1), &mut out);
    state.flush("A", &mut out);
    let s = render(&out);
    assert!(s.contains("HOUR,2026-07-24,A,10:00:00,11:00:00,200.00000000,100.00000000"));
}

#[test]
fn the_index_runs_on_over_dates() {
    let mut state = SymbolAgg::default();
    let mut out = Vec::new();
    for day in 0..16u32 {
        state.record_parsed_tick(&tick("A", 20260701 + day, 0, 100 + day as u64, 1), &mut out);
    }
    state.flush("A", &mut out);
    let steps: Vec<RsiStep> = out
        .iter()
        .filter_map(|record| match record {
            Record::Minute { bar, .. } => Some(bar.rsi14),
            _ => None,
        })
        .collect();
    assert_eq!(steps.len(), 16);
    assert_eq!(steps[0], RsiStep::First);
    assert_eq!(steps[13], RsiStep::Warmup(Change::Gain { from: 112, to: 113 }));
    assert_eq!(steps[14], RsiStep::Seed(Change::Gain { from: 113, to: 114 }));
    assert_eq!(steps[15], RsiStep::Smooth(Change::Gain { from: 114, to: 115 }));
}

#[test]
fn what_is_current_is_put_out_once() {
    let mut state = SymbolAgg::default();
    let mut out = Vec::new();
    state.record_parsed_tick(&tick("A", 20260723, 1, 100, 1), &mut out);
    state.flush_current("A", &mut out);
    assert_eq!(out.len(), 2);
    assert_eq!(state.cur_date_key, Some(20260723));
    assert_eq!(state.last_seen_ts_ms, None);
    state.flush("A", &mut out);
    assert_eq!(out.len(), 2);
    assert_eq!(state.cur_date_key, None);
}

#[test]
fn turning_to_a_trade_goes_by_date_hour_and_minute() {
    let mut state = SymbolAgg::default();
    let mut out = Vec::new();
    let first = tick("A", 20260723, 9 * MSEC_PER_HOUR, 100, 1);
    state.check_date(&first, &mut out);
    state.check_hour(&first, &mut out);
    state.check_minute(&first, &mut out);
    assert!(out.is_empty());
    assert_eq!(state.cur_date_key, Some(20260723));
    assert_eq!(state.cur_hour.unwrap().hour_start_ms, 9 * MSEC_PER_HOUR);
    assert!(state.cur_min.is_none());
    state.record_parsed_tick(&first, &mut out);
    let next = tick("A", 20260723, 9 * MSEC_PER_HOUR + MSEC_PER_MIN, 100, 1);
    state.check_date(&next, &mut out);
    state.check_hour(&next, &mut out);
    assert!(out.is_empty());
    state.check_minute(&next, &mut out);
    assert!(matches!(out[0], Record::Minute { .. }));
    assert!(state.cur_min.is_none());
}

#[test]
fn a_bar_is_put_out_as_one_close() {
    let mut state = SymbolAgg::default();
    let mut out = Vec::new();
    state.write_minute_bar("A", MinuteAgg::new(20260723, 0, 42, 3), &mut out);
    assert_eq!(state.rsi_1m, RsiState { prev_close: Some(42), warmup_count: 0 });
    match &out[0] {
        Record::Minute { symbol, bar } => {
            assert_eq!((symbol.as_str(), bar.close, bar.volume), ("A", 42, 3));
            assert_eq!(bar.rsi14, RsiStep::First);
        }
        other => panic!("unexpected record: {:?}", other),
    }
}

#[test]
fn sums_know_when_they_are_full() {
    let mut state = SymbolAgg::default();
    let mut out = Vec::new();
    state.record_parsed_tick(&tick("A", 20260723, 0, 1, u64::MAX - 5), &mut out);
    assert!(state.has_room(&tick("A", 20260723, 1, 1, 5)));
    assert!(!state.has_room(&tick("A", 20260723, 1, 1, 6)));
    assert!(!state.has_room(&tick("A", 20260723, MSEC_PER_MIN, 1, 6)));
    assert!(state.has_room(&tick("A", 20260723, MSEC_PER_HOUR, 1, u64::MAX)));

    let summary = Summary { total_volume: u128::MAX - 5, total_pv: u128::MAX - 12 };
    assert!(summary.has_room(&tick("A", 20260723, 0, 3, 4)));
    assert!(!summary.has_room(&tick("A", 20260723, 0, 13, 1)));
    assert!(!summary.has_room(&tick("A", 20260723, 0, 0, 6)));
}

#[test]
fn totals_are_summed() {
    let mut summary = Summary::default();
    summary.record_parsed_tick(&tick("A", 20260723, 0, 3, 4));
    summary.record_parsed_tick(&tick("B", 20260723, 0, u64::MAX, u64::MAX));
    assert_eq!(summary.total_volume, u64::MAX as u128 + 4);
    assert_eq!(summary.total_pv, u64::MAX as u128 * u64::MAX as u128 + 12);
}

#[test]
fn averages_lie_between_the_prices() {
    let mut hour = HourAgg::new(20260723, 0);
    for (ts_ms, price, volume) in [(0, 50, 3), (1_000, 70, 1), (2_000, 60, 9)] {
        hour.record_parsed_tick(&tick("A", 20260723, ts_ms, price, volume));
    }
    hour.add_twap(hour.end_ms());
    assert!(50 * hour.vol_sum as u128 <= hour.pv_sum && hour.pv_sum <= 70 * hour.vol_sum as u128);
    assert!(50 * 3_600_000 <= hour.twap_num && hour.twap_num <= 70 * 3_600_000);
    let mut flat = HourAgg::new(20260723, 0);
    flat.record_parsed_tick(&tick("A", 20260723, 0, 42, 3));
    flat.add_twap(flat.end_ms());
    assert_eq!(flat.twap_num, 42 * 3_600_000);
}

#[test]
fn lines_have_their_columns() {
    let mut state = SymbolAgg::default();
    let mut out = Vec::new();
    for n in 0..40 {
        state.record_parsed_tick(&tick("삼성 전자", 20260723, n * MSEC_PER_MIN, 100 + n as u64, 1), &mut out);
    }
    state.flush("삼성 전자", &mut out);
    for line in render(&out).lines() {
        let columns: Vec<&str> = line.split(',').collect();
        assert_eq!(columns[2], "삼성 전자");
        assert_eq!(columns.len(), if line.starts_with("MINUTE") { 11 } else { 7 });
    }
}
