use btc_model_trainer::binary64::Binary64;
use btc_model_trainer::calendar::{advance_month, dated_month, place_month};
use btc_model_trainer::historical::cursor::{cursor_path, Cursor};
use btc_model_trainer::historical::merge::{
    collect_month_keys, csv_header, emit_csv, merge_month, CsvExport, NumberTexts, YearListing,
};
use btc_model_trainer::historical::schema::{OwnedRow, TradeRow};
use btc_model_trainer::historical::store::{
    exchange_to_static, shard_path_of, side_to_static, DataStore, OwnedColumns,
};
use btc_model_trainer::historical::{day_micros, exchange_floor, origin_micros};

fn number(x: f64) -> Binary64 {
    Binary64 { bits: x.to_bits() }
}

fn trade(ts_micros: i64, price: f64, side: Option<&'static str>) -> TradeRow {
    TradeRow { ts_micros, price: number(price), quantity: number(0.5), side, exchange: "kraken" }
}

fn owned(ts_micros: i64, exchange: &str) -> OwnedRow {
    OwnedRow {
        ts_micros,
        price: number(100.0),
        quantity: number(0.5),
        side: None,
        exchange: exchange.to_string(),
    }
}

/// 2024-02-01T00:00:00Z.
const FEBRUARY_2024: i64 = 1_706_745_600_000_000;
const DAY: i64 = 86_400_000_000;

#[test]
fn origin_is_the_start_of_2017() {
    assert_eq!(origin_micros(), 1_483_228_800_000_000);
    assert_eq!(exchange_floor("binance"), 1_501_545_600_000_000);
    assert_eq!(exchange_floor("kraken"), 1_483_228_800_000_000);
    assert_eq!(exchange_floor("coinbase"), 1_483_228_800_000_000);
    assert_eq!(exchange_floor("bitstamp"), 1_483_228_800_000_000);
    assert_eq!(exchange_floor("BINANCE"), 1_483_228_800_000_000);
}

#[test]
fn days_have_a_first_instant_where_they_exist() {
    assert_eq!(day_micros(2024, 2, 29), Some(FEBRUARY_2024 + 28 * DAY));
    assert_eq!(day_micros(2023, 2, 29), None);
    assert_eq!(day_micros(2024, 13, 1), None);
    assert_eq!(day_micros(2024, 1, 0), None);
    assert_eq!(day_micros(1970, 1, 1), Some(0));
    assert_eq!(day_micros(300_000, 1, 1), None);
}

#[test]
fn instants_lie_in_their_month() {
    assert_eq!(place_month(0), Some((1970, 1)));
    assert_eq!(place_month(-1), Some((1969, 12)));
    assert_eq!(place_month(FEBRUARY_2024), Some((2024, 2)));
    assert_eq!(place_month(FEBRUARY_2024 - 1), Some((2024, 1)));
    assert_eq!(place_month(FEBRUARY_2024 + 29 * DAY), Some((2024, 3)));
    assert_eq!(place_month(i64::MAX), None);
    assert_eq!(place_month(i64::MIN), None);
    assert_eq!(dated_month(i64::MAX), (-262_143, 1));
}

#[test]
fn advancing_passes_the_turn_of_the_year() {
    let (mut year, mut month) = (2023, 11);
    advance_month(&mut year, &mut month);
    assert_eq!((year, month), (2023, 12));
    advance_month(&mut year, &mut month);
    assert_eq!((year, month), (2024, 1));
}

#[test]
fn cursor_moves_to_the_last_row_and_counts() {
    let mut cursor = Cursor::blank();
    assert_eq!(cursor.last_ts_micros, None);
    assert!(!cursor.has_stored(i64::MIN));
    cursor.advance(1_700_000_000_999_999, 10);
    cursor.advance(1_700_000_001_000_000, 5);
    assert_eq!(cursor.last_ts_micros, Some(1_700_000_001_000_000));
    assert_eq!(cursor.last_ts_human.as_deref(), Some("2023-11-14T22:13:21Z"));
    assert_eq!(cursor.rows_written, 15);
    assert!(cursor.has_stored(1_700_000_001_000_000));
    assert!(!cursor.has_stored(1_700_000_001_000_001));
    let copy = cursor.clone();
    assert_eq!(copy.last_ts_micros, cursor.last_ts_micros);
    assert_eq!(copy.last_ts_human, cursor.last_ts_human);
    assert_eq!(copy.rows_written, cursor.rows_written);
}

#[test]
fn cursor_outside_the_calendar_shows_the_earliest_instant() {
    let mut cursor = Cursor::blank();
    cursor.advance(i64::MAX, 1);
    assert_eq!(cursor.last_ts_micros, Some(i64::MAX));
    assert_eq!(cursor.last_ts_human.as_deref(), Some("-262143-01-01T00:00:00Z"));
}

#[test]
fn runs_resume_behind_the_cursor() {
    let mut cursor = Cursor::blank();
    assert_eq!(cursor.resume_from(7), 7);
    cursor.advance(100, 1);
    assert_eq!(cursor.resume_from(7), 101);
    assert_eq!(cursor.resume_from(100), 101);
    assert_eq!(cursor.resume_from(101), 101);
    assert_eq!(cursor.resume_from(200), 200);
    cursor.advance(i64::MAX, 1);
    assert_eq!(cursor.resume_from(7), i64::MAX);
}

#[test]
fn paths_follow_the_layout_of_the_store() {
    assert_eq!(cursor_path("data", "kraken"), "data/kraken/cursor.json");
    assert_eq!(cursor_path("data/", "kraken"), "data/kraken/cursor.json");
    let store = DataStore::new("data", "kraken");
    assert_eq!(store.exchange_dir(), "data/kraken");
    assert_eq!(store.year_path(2024), "data/kraken/2024");
    assert_eq!(store.shard_path(2024, 3), "data/kraken/2024/03.parquet");
    assert_eq!(shard_path_of("data", "binance", 2017, 12), "data/binance/2017/12.parquet");
}

#[test]
fn batches_are_split_by_month() {
    let store = DataStore::new("data", "kraken");
    let rows = vec![
        trade(FEBRUARY_2024 + 1, 1.0, None),
        trade(FEBRUARY_2024 - 1, 2.0, None),
        trade(FEBRUARY_2024 + 2, 3.0, None),
    ];
    let writes = store.write_batch(&rows);
    assert_eq!(writes.len(), 2);
    assert_eq!((writes[0].year, writes[0].month), (2024, 1));
    assert_eq!(writes[0].path, "data/kraken/2024/01.parquet");
    assert_eq!(writes[0].rows.len(), 1);
    assert_eq!((writes[1].year, writes[1].month), (2024, 2));
    assert_eq!(writes[1].rows[0].price, number(1.0));
    assert_eq!(writes[1].rows[1].price, number(3.0));
    assert!(store.write_batch(&Vec::new()).is_empty());
}

#[test]
fn written_rows_read_back() {
    let store = DataStore::new("data", "kraken");
    let rows = vec![
        trade(FEBRUARY_2024, 1.5, Some("buy")),
        trade(FEBRUARY_2024 + 5, 2.5, Some("sell")),
        trade(FEBRUARY_2024 + 9, 3.5, None),
    ];
    let columns = store.write_shard(&rows);
    assert_eq!(columns.ts_micros, vec![FEBRUARY_2024, FEBRUARY_2024 + 5, FEBRUARY_2024 + 9]);
    let batch = OwnedColumns {
        ts_micros: columns.ts_micros.clone(),
        price: columns.price.clone(),
        quantity: columns.quantity.clone(),
        side: columns.side.iter().map(|s| s.map(|t| t.to_string())).collect(),
        exchange: columns.exchange.iter().map(|s| s.to_string()).collect(),
    };
    let back = store.read_shard_for_seed(&vec![batch]);
    assert_eq!(back.len(), 3);
    for i in 0..3 {
        assert_eq!(back[i].ts_micros, rows[i].ts_micros);
        assert_eq!(back[i].price, rows[i].price);
        assert_eq!(back[i].side, rows[i].side);
        assert_eq!(back[i].exchange, rows[i].exchange);
    }
}

#[test]
fn shards_are_read_batch_by_batch() {
    let store = DataStore::new("data", "kraken");
    let batch = |ts: i64, side: Option<&str>| OwnedColumns {
        ts_micros: vec![ts],
        price: vec![number(1.0)],
        quantity: vec![number(2.0)],
        side: vec![side.map(|s| s.to_string())],
        exchange: vec!["elsewhere".to_string()],
    };
    let rows = store.read_shard_owned(&vec![batch(1, Some("buy")), batch(2, None)]);
    assert_eq!(rows.len(), 2);
    assert_eq!(rows[0].side.as_deref(), Some("buy"));
    assert_eq!(rows[1].ts_micros, 2);
    assert_eq!(rows[1].exchange, "elsewhere");
}

#[test]
fn texts_are_brought_to_the_known_names() {
    assert_eq!(side_to_static("buy"), "buy");
    assert_eq!(side_to_static("sell"), "sell");
    assert_eq!(exchange_to_static("binance"), "binance");
    assert_eq!(exchange_to_static("kraken"), "kraken");
    assert_eq!(exchange_to_static("bitstamp"), "bitstamp");
    assert_eq!(exchange_to_static("coinbase"), "coinbase");
}

#[test]
fn listed_months_come_in_order_and_once() {
    let listing = |name: &str, files: &[&str]| YearListing {
        name: name.to_string(),
        files: files.iter().map(|f| f.to_string()).collect(),
    };
    let keys = collect_month_keys(&vec![
        listing("2024", &["02.parquet", "01.parquet", "notes.txt"]),
        listing("2023", &["12.parquet"]),
        listing("2024", &["01.parquet"]),
        listing("cursor.json", &["01.parquet"]),
    ]);
    assert_eq!(keys, vec![(2023, 12), (2024, 1), (2024, 2)]);
}

#[test]
fn exchanges_of_a_month_are_merged_by_time() {
    let rows = merge_month(vec![
        vec![owned(5, "binance"), owned(9, "binance")],
        vec![],
        vec![owned(1, "kraken"), owned(7, "kraken")],
    ]);
    let seen: Vec<(i64, &str)> = rows.iter().map(|r| (r.ts_micros, r.exchange.as_str())).collect();
    assert_eq!(seen, vec![(1, "kraken"), (5, "binance"), (7, "kraken"), (9, "binance")]);
    assert!(merge_month(Vec::new()).is_empty());
}

#[test]
fn merged_rows_are_written_as_csv() {
    let mut first = owned(1_700_000_000_000_000, "binance");
    first.side = Some("buy".to_string());
    let second = owned(-5, "odd,\"name\"");
    let numbers = vec![
        NumberTexts { price: "43250.12".to_string(), quantity: "0.01400000".to_string() },
        NumberTexts { price: "1".to_string(), quantity: "2".to_string() },
    ];
    assert_eq!(csv_header(), "ts_micros,price,quantity,side,exchange\n");
    assert_eq!(
        emit_csv(&vec![first, second], &numbers),
        "1700000000000000,43250.12,0.01400000,buy,binance\n-5,1,2,,\"odd,\"\"name\"\"\"\n",
    );
    assert_eq!(emit_csv(&Vec::new(), &Vec::new()), "");
}

#[test]
fn an_export_counts_the_rows_of_all_months() {
    let numbers = |n: usize| -> Vec<NumberTexts> {
        (0..n)
            .map(|i| NumberTexts { price: format!("{}", i), quantity: "2".to_string() })
            .collect()
    };
    let first = vec![owned(1, "kraken"), owned(2, "kraken")];
    let second = vec![owned(3, "binance")];
    let mut export = CsvExport::new();
    assert_eq!(export.total_rows(), 0);
    let mut text = export.write_month(&first, &numbers(2));
    assert_eq!(export.total_rows(), 2);
    text.push_str(&export.write_month(&Vec::new(), &Vec::new()));
    assert_eq!(export.total_rows(), 2);
    text.push_str(&export.write_month(&second, &numbers(1)));
    assert_eq!(export.total_rows(), 3);
    assert_eq!(text, "1,0,2,,kraken\n2,1,2,,kraken\n3,0,2,,binance\n");
}

#[test]
fn the_calendar_has_a_first_and_a_last_instant() {
    let first = -8_334_601_228_800_000_000;
    assert_eq!(place_month(first), Some((-262_143, 1)));
    assert_eq!(place_month(first - 1), None);
    let behind = 8_210_266_876_800_000_000;
    assert_eq!(place_month(behind - 1), Some((262_142, 12)));
    assert_eq!(place_month(behind), None);
    assert_eq!(day_micros(-262_143, 1, 1), Some(first));
    assert_eq!(day_micros(-262_144, 12, 31), None);
    assert_eq!(day_micros(262_142, 12, 31), Some(behind - DAY));
    assert_eq!(day_micros(262_143, 1, 1), None);
}

#[test]
fn years_are_written_with_four_digits_or_a_sign() {
    let human = |ts: i64| {
        let mut cursor = Cursor::blank();
        cursor.advance(ts, 0);
        cursor.last_ts_human.unwrap()
    };
    assert_eq!(human(0), "1970-01-01T00:00:00Z");
    assert_eq!(human(-1), "1969-12-31T23:59:59Z");
    assert_eq!(human(253_402_300_800_000_000), "+10000-01-01T00:00:00Z");
    assert_eq!(human(253_402_300_799_999_999), "9999-12-31T23:59:59Z");
    assert_eq!(human(-62_009_366_400_000_000), "0005-01-01T00:00:00Z");
    assert_eq!(human(-62_324_985_600_000_000), "-0005-01-01T00:00:00Z");
}

#[test]
fn shards_stay_in_the_order_of_time() {
    let store = DataStore::new("data", "kraken");
    let rows: Vec<TradeRow> =
        (0..50).map(|i| trade(FEBRUARY_2024 + (i - 25) * DAY, 1.0, None)).collect();
    let writes = store.write_batch(&rows);
    assert_eq!(writes.len(), 2);
    let mut together = Vec::new();
    for w in &writes {
        for pair in w.rows.windows(2) {
            assert!(pair[0].ts_micros <= pair[1].ts_micros);
        }
        together.extend(w.rows.iter().map(|r| r.ts_micros));
    }
    assert_eq!(together, rows.iter().map(|r| r.ts_micros).collect::<Vec<i64>>());
}

#[test]
fn shard_paths_name_their_month() {
    for (year, month) in [(2017, 8), (2024, 12), (-5, 1)] {
        let path = DataStore::new("data", "kraken").shard_path(year, month);
        let mut parts = path.rsplit('/');
        let file = parts.next().unwrap().to_string();
        let name = parts.next().unwrap().to_string();
        let listing = YearListing { name, files: vec![file] };
        assert_eq!(collect_month_keys(&vec![listing]), vec![(year, month)]);
    }
}

#[test]
fn months_in_order_are_ascending_throughout() {
    let months = [
        merge_month(vec![vec![owned(FEBRUARY_2024 - 1, "a")], vec![owned(FEBRUARY_2024 - 9, "b")]]),
        merge_month(vec![vec![owned(FEBRUARY_2024 + 7, "a")], vec![owned(FEBRUARY_2024, "b")]]),
    ];
    let all: Vec<i64> = months.iter().flatten().map(|r| r.ts_micros).collect();
    assert_eq!(
        all,
        vec![FEBRUARY_2024 - 9, FEBRUARY_2024 - 1, FEBRUARY_2024, FEBRUARY_2024 + 7],
    );
}
