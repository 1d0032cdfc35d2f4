use btc_model_trainer::binary64::Binary64;
use btc_model_trainer::historical::schema::OwnedRow;
use btc_model_trainer::training::bucket::{BucketAccumulator, BucketSums};
use btc_model_trainer::training::config::{
    check_options, choose_label, work_out, work_out_checked, OptionsError, Settings,
};
use btc_model_trainer::training::features::{
    feature_array, feature_names, FeatureVector, N_FEATURES,
};
use btc_model_trainer::training::feed::{BucketFeed, FeedError};
use btc_model_trainer::training::labeller::{Labeller, Tick};
use btc_model_trainer::training::pipeline::{require_rows, NoRows, Pipeline};
use btc_model_trainer::training::shards::{
    shard_header, sum_counts, InvalidRowTime, ShardStats, ShardWriter,
};
use btc_model_trainer::training::trade::{
    exchange_slot, slot_exchange, Exchange, TradeRow, TradeSide,
};
use btc_model_trainer::training::volatility::{
    floor_estimate, guard_variance, LabelVolTracker,
};

fn number(x: f64) -> Binary64 {
    Binary64 { bits: x.to_bits() }
}

fn value(x: Binary64) -> f64 {
    f64::from_bits(x.bits)
}

fn trade(ts_micros: i64, price: f64, side: &str, exchange: &str) -> TradeRow {
    TradeRow {
        ts_micros,
        price: number(price),
        quantity: number(1.0),
        side: side.to_string(),
        exchange: exchange.to_string(),
    }
}

fn tick(ts_micros: i64, price: f64) -> Tick {
    Tick { ts_micros, price: number(price), features: texts(&price.to_string()) }
}

fn texts(text: &str) -> Vec<String> {
    vec![text.to_string(); 27]
}

/// 2024-02-01T00:00:00Z.
const FEBRUARY_2024: i64 = 1_706_745_600_000_000;

// ── Trades ──────────────────────────────────────────────────────────────────

#[test]
fn sides_and_exchanges_are_read_in_any_case() {
    for (text, side) in [
        ("buy", Some(TradeSide::Buy)),
        ("B", Some(TradeSide::Buy)),
        ("SELL", Some(TradeSide::Sell)),
        ("s", Some(TradeSide::Sell)),
        ("", None),
        ("hold", None),
    ] {
        assert_eq!(trade(0, 1.0, text, "kraken").parse_side(), side);
    }
    for (text, exchange) in [
        ("Binance", Exchange::Binance),
        ("coinbase", Exchange::Coinbase),
        ("KRAKEN", Exchange::Kraken),
        ("bitstamp", Exchange::Bitstamp),
    ] {
        assert_eq!(trade(0, 1.0, "", text).parse_exchange(), Ok(exchange));
        assert_eq!(slot_exchange(exchange_slot(exchange)), exchange);
    }
    assert_eq!(trade(0, 1.0, "", "MtGox").parse_exchange(), Err("mtgox".to_string()));
}

#[test]
fn stored_rows_become_trades() {
    let stored = OwnedRow {
        ts_micros: 5,
        price: number(2.0),
        quantity: number(3.0),
        side: None,
        exchange: "kraken".to_string(),
    };
    let t = TradeRow::from_stored(stored);
    assert_eq!(t.ts_micros, 5);
    assert_eq!(t.side, "");
    assert_eq!(t.exchange, "kraken");
    assert_eq!(t.quantity, number(3.0));
}

// ── Buckets ─────────────────────────────────────────────────────────────────

fn sums(volume: f64, sided: f64) -> BucketSums {
    BucketSums {
        volume: number(volume),
        notional: number(7.0),
        price: number(8.0),
        sided_volume: number(sided),
        buy_ratio: number(0.25),
    }
}

#[test]
fn buckets_make_ticks() {
    let mut acc = BucketAccumulator::empty();
    acc.add(&trade(0, 10.0, "buy", "kraken"), Exchange::Kraken);
    acc.add(&trade(1, 30.0, "", "binance"), Exchange::Binance);
    acc.add(&trade(2, 20.0, "", "kraken"), Exchange::Kraken);
    assert_eq!(acc.trades().len(), 3);
    let t = acc.flush(17, 100_000, sums(3.0, 1.0)).unwrap();
    assert_eq!(t.ts_micros, 1_750_000);
    assert_eq!(t.price, number(8.0));
    assert_eq!(t.notional, number(7.0));
    assert_eq!(t.buy_ratio, Some(number(0.25)));
    assert_eq!(t.exchange_count, 2);
    assert_eq!(t.tick_count, 3);
    assert_eq!(
        t.exchange_prices,
        vec![(Exchange::Binance, number(30.0)), (Exchange::Kraken, number(20.0))],
    );
    assert_eq!(t.price_range, Some((number(30.0), number(20.0))));
    assert!(acc.flush(17, 100_000, sums(0.0, 1.0)).is_none());
    assert!(acc.flush(17, 100_000, sums(-1.0, 1.0)).is_none());
    assert_eq!(acc.flush(17, 100_000, sums(3.0, 0.0)).unwrap().buy_ratio, None);
    assert_eq!(acc.flush(-1, 100_000, sums(3.0, 0.0)).unwrap().ts_micros, -50_000);
}

#[test]
fn buckets_of_one_exchange_have_no_range() {
    let mut acc = BucketAccumulator::empty();
    acc.add(&trade(0, 10.0, "hold", "kraken"), Exchange::Kraken);
    let t = acc.flush(0, 100_000, sums(1.0, 5.0)).unwrap();
    assert_eq!(t.exchange_count, 1);
    assert_eq!(t.price_range, None);
    assert_eq!(t.buy_ratio, None);
    let t = BucketAccumulator::empty().flush(0, 100_000, sums(1.0, 5.0)).unwrap();
    assert_eq!(t.exchange_count, 1);
    assert_eq!(t.tick_count, 0);
}

#[test]
fn trades_are_gathered_by_bucket() {
    let mut feed = BucketFeed::new(100);
    assert!(feed.process_row(&trade(-1, 1.0, "", "kraken")).unwrap().is_none());
    let closed = feed.process_row(&trade(0, 2.0, "", "kraken")).unwrap().unwrap();
    assert_eq!(closed.bucket_id, -1);
    assert_eq!(closed.acc.trades().len(), 1);
    assert!(feed.process_row(&trade(99, 3.0, "", "kraken")).unwrap().is_none());
    assert_eq!(feed.open_trades(), 2);
    let closed = feed.process_row(&trade(1_000, 4.0, "", "kraken")).unwrap().unwrap();
    assert_eq!(closed.bucket_id, 0);
    let prices: Vec<f64> = closed.acc.trades().iter().map(|t| value(t.price)).collect();
    assert_eq!(prices, vec![2.0, 3.0]);
    let closed = feed.close_last().unwrap();
    assert_eq!(closed.bucket_id, 10);
    assert!(feed.close_last().is_none());
    assert_eq!(feed.row_count(), 4);
}

#[test]
fn trades_out_of_order_are_an_error() {
    let mut feed = BucketFeed::new(100);
    feed.process_row(&trade(50, 1.0, "", "kraken")).unwrap();
    match feed.process_row(&trade(49, 1.0, "", "kraken")) {
        Err(FeedError::NotSorted { row, ts_micros, prev }) => {
            assert_eq!((row, ts_micros, prev), (2, 49, 50));
        },
        _ => panic!("taken in"),
    }
    match feed.process_row(&trade(50, 1.0, "", "MtGox")) {
        Err(FeedError::UnknownExchange(name)) => assert_eq!(name, "mtgox"),
        _ => panic!("taken in"),
    }
    assert_eq!(feed.open_trades(), 1);
}

// ── Features ────────────────────────────────────────────────────────────────

fn features(known: bool) -> FeatureVector {
    let mut next = 0.0;
    let mut plain = || {
        next += 1.0;
        number(next)
    };
    let v: Vec<Binary64> = (0..27).map(|_| plain()).collect();
    let o = |i: usize| if known { Some(v[i]) } else { None };
    FeatureVector {
        return_5s: o(0),
        return_30s: o(1),
        return_300s: o(2),
        vol_30s: o(3),
        vol_300s: o(4),
        vol_1800s: o(5),
        vol_ratio: o(6),
        ofi_5s: v[7],
        ofi_30s: v[8],
        ofi_300s: v[9],
        ofi_delta_30s: v[10],
        buy_ratio_30s: v[11],
        buy_ratio_300s: v[12],
        vwap_dev_30s: o(13),
        vwap_dev_300s: o(14),
        volume_ratio: o(15),
        tick_velocity: v[16],
        activity_regime: v[17],
        spread_pct: v[18],
        book_imbalance_5: o(19),
        book_imbalance_full: o(20),
        book_spread_pct: o(21),
        book_pressure: o(22),
        trend_strength: o(23),
        vol_regime: o(24),
        zreturn_30s: o(25),
        zreturn_300s: o(26),
    }
}

#[test]
fn features_stand_in_the_order_of_their_names() {
    let names = feature_names();
    assert_eq!(names.len(), N_FEATURES);
    assert_eq!(names[0], "return_5s");
    assert_eq!(names[6], "vol_ratio");
    assert_eq!(names[16], "tick_velocity");
    assert_eq!(names[19], "book_imb5");
    assert_eq!(names[26], "zreturn_300s");
    let known = feature_array(&features(true));
    for i in 0..27 {
        assert_eq!(value(known[i]), (i + 1) as f64);
    }
}

#[test]
fn unknown_features_have_neutral_values() {
    let a = feature_array(&features(false));
    let floor = 0.001f32 as f64;
    for i in [0, 1, 2, 13, 14, 19, 20, 21, 22, 23, 25, 26] {
        assert_eq!(value(a[i]), 0.0);
    }
    for i in [3, 4, 5] {
        assert_eq!(value(a[i]), floor);
    }
    for i in [6, 15, 24] {
        assert_eq!(value(a[i]), 1.0);
    }
    for i in [7, 8, 9, 10, 11, 12, 16, 17, 18] {
        assert_eq!(value(a[i]), (i + 1) as f64);
    }
}

// ── Volatility ──────────────────────────────────────────────────────────────

#[test]
fn windows_end_at_their_instant() {
    let mut tracker = LabelVolTracker::new(100);
    tracker.push_bucket(0, number(1.0), number(9.0));
    for (ts, r) in [(50, 1.0), (100, 2.0), (150, 3.0), (200, 4.0), (250, 5.0)] {
        tracker.push_bucket(ts, number(1.0), number(r));
    }
    let step = tracker.advance_to(100);
    assert_eq!(step.entered, vec![number(1.0), number(2.0)]);
    assert!(step.left.is_empty());
    assert_eq!(tracker.window_len(), 2);
    assert!(tracker.has_estimate());
    let step = tracker.advance_to(200);
    assert_eq!(step.entered, vec![number(3.0), number(4.0)]);
    assert_eq!(step.left, vec![number(1.0)]);
    assert_eq!(tracker.window_len(), 3);
    let step = tracker.advance_to(200);
    assert!(step.entered.is_empty() && step.left.is_empty());
    assert_eq!(tracker.window_len(), 3);
    let step = tracker.advance_to(1_000);
    assert_eq!(step.entered, vec![number(5.0)]);
    assert_eq!(step.left.len(), 4);
    assert!(!tracker.has_estimate());
}

#[test]
fn prices_make_returns_where_both_are_positive() {
    let mut tracker = LabelVolTracker::new(100);
    assert_eq!(tracker.return_base(number(2.0)), None);
    tracker.push_bucket(0, number(2.0), number(0.0));
    assert_eq!(tracker.return_base(number(3.0)), Some(number(2.0)));
    assert_eq!(tracker.return_base(number(0.0)), None);
    tracker.push_bucket(1, number(0.0), number(1.0));
    assert_eq!(tracker.return_base(number(3.0)), None);
    tracker.push_bucket(2, number(3.0), number(1.0));
    tracker.advance_to(2);
    assert_eq!(tracker.window_len(), 0);
}

#[test]
fn estimates_are_held_to_the_floor() {
    assert_eq!(value(floor_estimate(number(0.5), true)), 0.5);
    assert_eq!(value(floor_estimate(number(0.0005), true)), 0.001);
    assert_eq!(value(floor_estimate(number(f64::NAN), true)), 0.001);
    assert_eq!(value(floor_estimate(number(0.5), false)), 0.001);
    assert_eq!(guard_variance(number(-1e-18)), number(0.0));
    assert_eq!(guard_variance(number(1e-18)), number(1e-18));
}

// ── Labels ──────────────────────────────────────────────────────────────────

#[test]
fn labels_follow_the_move() {
    let k = number(0.5);
    assert_eq!(choose_label(number(0.6), k), 2);
    assert_eq!(choose_label(number(0.5), k), 1);
    assert_eq!(choose_label(number(-0.5), k), 1);
    assert_eq!(choose_label(number(-0.6), k), 0);
    assert_eq!(choose_label(number(f64::NAN), k), 1);
}

#[test]
fn ticks_are_labelled_a_window_later() {
    let mut labeller = Labeller::new(2, 1_000);
    assert!(labeller.take_tick(tick(10, 1.0), number(0.0)).is_none());
    assert!(labeller.take_tick(tick(20, 2.0), number(0.1)).is_none());
    let task = labeller.take_tick(tick(30, 3.0), number(0.2)).unwrap();
    assert_eq!(task.past.ts_micros, 10);
    assert_eq!(task.future_price, number(3.0));
    assert!(task.has_move);
    assert_eq!(task.window_len, 0);
    assert!(!task.has_estimate);
    let task = labeller.take_tick(tick(40, 0.0), number(0.3)).unwrap();
    assert_eq!(task.past.ts_micros, 20);
    assert_eq!(task.past.features, texts("2"));
    assert!(!task.has_move);
    assert_eq!(task.step.entered, vec![number(0.1)]);
    assert_eq!(labeller.bucket_count(), 4);
    assert!(labeller.can_follow(40));
    assert!(!labeller.can_follow(39));
}

#[test]
fn returns_after_the_labelled_tick_play_no_part() {
    let label_with = |later: f64| {
        let mut labeller = Labeller::new(3, 1_000);
        labeller.take_tick(tick(10, 1.0), number(0.0));
        labeller.take_tick(tick(20, 2.0), number(0.1));
        labeller.take_tick(tick(30, 3.0), number(later));
        labeller.take_tick(tick(40, 4.0), number(later));
        labeller.take_tick(tick(50, 5.0), number(later)).unwrap().step.entered
    };
    assert_eq!(label_with(0.7), label_with(-0.9));
    assert_eq!(label_with(0.7), vec![number(0.1)]);
}

// ── Shards ──────────────────────────────────────────────────────────────────

#[test]
fn rows_go_to_the_files_of_their_month() {
    let mut writer = ShardWriter::new();
    let features = texts("0.5");
    let first = writer.write_row(FEBRUARY_2024 - 1, &features, 0).unwrap();
    assert_eq!(first.opened.as_deref(), Some("2024-01.csv"));
    assert_eq!(first.line, "0.5,".repeat(27) + "0\n");
    assert_eq!(first.label, 0);
    let second = writer.write_row(FEBRUARY_2024, &features, 2).unwrap();
    assert_eq!(second.opened.as_deref(), Some("2024-02.csv"));
    assert_eq!(second.line, "0.5,".repeat(27) + "2\n");
    assert_eq!(writer.write_row(FEBRUARY_2024 + 5, &features, 1).unwrap().opened, None);
    assert_eq!(
        writer.write_row(i64::MAX, &features, 1).err(),
        Some(InvalidRowTime { ts_micros: i64::MAX }),
    );
    assert!(writer.has_room(1));
    let shards = writer.finish();
    assert_eq!(shards.len(), 2);
    assert_eq!((shards[0].year, shards[0].month, shards[0].rows), (2024, 1, 1));
    assert_eq!((shards[1].sideways, shards[1].bullish, shards[1].bearish), (1, 1, 0));
    assert_eq!(shards[1].first_ts_micros, Some(FEBRUARY_2024));
    assert_eq!(shards[1].last_ts_micros, Some(FEBRUARY_2024 + 5));
    assert_eq!(shards[1].file, "2024-02.csv");
    let total = sum_counts(&shards);
    assert_eq!((total.rows, total.bearish, total.sideways, total.bullish), (3, 1, 1, 1));
    assert_eq!(require_rows(&total), Ok(()));
    assert_eq!(require_rows(&sum_counts(&Vec::new())), Err(NoRows));
    assert!(ShardWriter::new().finish().is_empty());
}

#[test]
fn shards_have_a_header() {
    let header = shard_header();
    assert!(header.starts_with("return_5s,return_30s,return_300s,vol_30s,"));
    assert!(header.ends_with(",zreturn_30s,zreturn_300s,label\n"));
    assert_eq!(header.matches(',').count(), 27);
}

#[test]
fn a_label_needs_room_in_its_own_counter_only() {
    let mut stats = ShardStats::fresh(2017, 1);
    assert_eq!(stats.file, "2017-01.csv");
    stats.bearish = u64::MAX;
    stats.record_label(2, 7);
    assert_eq!((stats.rows, stats.bearish, stats.bullish), (1, u64::MAX, 1));
    stats.record_label(3, 8);
    assert_eq!((stats.rows, stats.bearish, stats.sideways, stats.bullish), (2, u64::MAX, 0, 1));
    assert_eq!(stats.first_ts_micros, Some(7));
    assert_eq!(stats.last_ts_micros, Some(8));
}

// ── Options ─────────────────────────────────────────────────────────────────

#[test]
fn options_are_tested() {
    let half = number(0.5);
    assert_eq!(check_options(true, false, half), Ok(()));
    assert_eq!(check_options(false, true, half), Ok(()));
    assert_eq!(check_options(false, false, half), Err(OptionsError::NoInput));
    assert_eq!(
        check_options(true, false, number(0.0)),
        Err(OptionsError::MultipleNotPositive),
    );
}

#[test]
fn label_windows_hold_at_least_one_bucket() {
    assert_eq!(
        work_out(100, 300, 1_800),
        Settings {
            bucket_width_micros: 100_000,
            vol_window_micros: 1_800_000_000,
            label_buckets: 3_000,
        },
    );
    assert_eq!(work_out(2_000, 1, 1).label_buckets, 1);
    assert_eq!(work_out(700, 1, 1).label_buckets, 1);
    assert_eq!(work_out(300, 1, 1).label_buckets, 3);
}

#[test]
fn widths_out_of_range_make_no_run() {
    assert_eq!(work_out_checked(100, 300, 1_800), Some(work_out(100, 300, 1_800)));
    assert_eq!(work_out_checked(-100, 300, 1_800).map(|s| s.label_buckets), Some(1));
    assert_eq!(work_out_checked(0, 300, 1_800), None);
    assert_eq!(work_out_checked(i64::MAX / 1_000 + 1, 300, 1_800), None);
    assert_eq!(work_out_checked(100, i64::MAX / 1_000_000 + 1, 1_800), None);
    assert_eq!(work_out_checked(100, 300, i64::MIN / 1_000_000 - 1), None);
}

// ── The whole run ───────────────────────────────────────────────────────────

#[test]
fn a_run_labels_each_bucket_by_the_one_behind_its_window() {
    let settings =
        Settings { bucket_width_micros: 100, vol_window_micros: 1_000, label_buckets: 2 };
    let mut pipeline = Pipeline::new(settings, number(0.5));
    let mut ticks = Vec::new();
    for i in 0..5 {
        let row = trade(FEBRUARY_2024 + i * 100, (i + 1) as f64, "", "kraken");
        if let Some(closed) = pipeline.process_row(&row).unwrap() {
            let fused = closed.acc.flush(closed.bucket_id, 100, sums(1.0, 0.0)).unwrap();
            ticks.push((fused.ts_micros, closed.acc.trades()[0].price));
        }
    }
    let closed = pipeline.close_last().unwrap();
    let fused = closed.acc.flush(closed.bucket_id, 100, sums(1.0, 0.0)).unwrap();
    ticks.push((fused.ts_micros, closed.acc.trades()[0].price));
    assert!(pipeline.close_last().is_none());
    let mut labelled = Vec::new();
    for (ts_micros, price) in ticks {
        assert!(pipeline.labeller().can_follow(ts_micros));
        let t = Tick { ts_micros, price, features: texts("0") };
        if let Some(task) = pipeline.take_tick(t, number(0.01)) {
            labelled.push((task.past.ts_micros - FEBRUARY_2024, value(task.future_price)));
            let write = pipeline.write_label(&task.past, number(1.0)).unwrap();
            assert_eq!(write.label, 2);
        }
    }
    assert_eq!(labelled, vec![(50, 3.0), (150, 4.0), (250, 5.0)]);
    assert_eq!(pipeline.feed().row_count(), 5);
    assert!(pipeline.writer().has_room(2));
    let shards = pipeline.finish();
    assert_eq!(shards.len(), 1);
    assert_eq!((shards[0].rows, shards[0].bullish), (3, 3));
}

#[test]
fn opposite_moves_get_opposite_labels() {
    let k = number(0.5);
    for z in [0.0, 0.4, 0.5, 0.50001, 7.0, f64::INFINITY] {
        assert_eq!(choose_label(number(-z), k), 2 - choose_label(number(z), k));
    }
}

#[test]
fn labels_add_up_to_rows() {
    let mut writer = ShardWriter::new();
    for i in 0..90 {
        let ts = FEBRUARY_2024 + i * 86_400_000_000;
        writer.write_row(ts, &texts("0"), (i % 3) as u8).unwrap();
    }
    let shards = writer.finish();
    assert_eq!(shards.len(), 3);
    for s in &shards {
        assert_eq!(s.rows, s.bearish + s.sideways + s.bullish);
    }
    let total = sum_counts(&shards);
    assert_eq!((total.rows, total.bearish, total.sideways, total.bullish), (90, 30, 30, 30));
}

#[test]
fn ticks_follow_their_buckets() {
    let acc = BucketAccumulator::empty();
    let middle = |id: i64| acc.flush(id, 100_000, sums(1.0, 0.0)).unwrap().ts_micros;
    assert!(middle(-1) < middle(0));
    assert!(middle(0) < middle(1));
    assert_eq!(middle(1) - middle(0), 100_000);
}
