use std::io::{Cursor as Bytes, Write};

use btc_model_trainer::binary64::Binary64;
use btc_model_trainer::historical::cursor::Cursor;
use btc_model_trainer::historical::schema::TradeRow;
use btc_model_trainer::historical::sources::archive::{
    field_text, read_archive, require_file, ArchiveError,
};
use btc_model_trainer::historical::sources::binance;
use btc_model_trainer::historical::sources::binance_ohlcv;
use btc_model_trainer::historical::sources::bitstamp::{
    BitstampFetcher, BitstampReply, OhlcEntry,
};
use btc_model_trainer::historical::sources::coinbase::{
    CbCandle, CoinbaseFetcher, CoinbaseReply, CANDLES_URL, PAGE_SECS,
};
use btc_model_trainer::historical::sources::json::Json;
use btc_model_trainer::historical::sources::kraken::{
    read_answer, KrakenFetcher, KrakenReply, RawTrade, TradeNumbers,
};
use btc_model_trainer::historical::sources::ledger::{seed_month, MonthFlush, MonthLedger};
use btc_model_trainer::historical::sources::months::{MonthAction, MonthEvent};
use btc_model_trainer::historical::sources::{
    rate_limit_millis, to_secs, FetchError, HistoricalFetcher, QuoteNumbers,
};

fn number(x: f64) -> Binary64 {
    Binary64 { bits: x.to_bits() }
}

fn quote(price: f64, quantity: f64) -> QuoteNumbers {
    QuoteNumbers { price: number(price), quantity: number(quantity) }
}

fn row(ts_micros: i64) -> TradeRow {
    TradeRow {
        ts_micros,
        price: number(1.0),
        quantity: number(1.0),
        side: None,
        exchange: "kraken",
    }
}

fn times(rows: &[TradeRow]) -> Vec<i64> {
    rows.iter().map(|r| r.ts_micros).collect()
}

fn texts(fields: &[&str]) -> Vec<String> {
    fields.iter().map(|f| f.to_string()).collect()
}

/// 2024-02-01T00:00:00Z.
const FEBRUARY_2024: i64 = 1_706_745_600_000_000;
/// 2024-03-01T00:00:00Z.
const MARCH_2024: i64 = 1_709_251_200_000_000;

// ── Shared ──────────────────────────────────────────────────────────────────

#[test]
fn delays_keep_to_the_rate_limits() {
    assert_eq!(rate_limit_millis("binance"), 200);
    assert_eq!(rate_limit_millis("kraken"), 1_000);
    assert_eq!(rate_limit_millis("bitstamp"), 400);
    assert_eq!(rate_limit_millis("coinbase"), 300);
    assert_eq!(rate_limit_millis("elsewhere"), 500);
}

#[test]
fn sources_know_their_names() {
    let root = || "data".to_string();
    assert_eq!(KrakenFetcher::new(root()).exchange(), "kraken");
    assert_eq!(BitstampFetcher::new(root()).exchange(), "bitstamp");
    assert_eq!(CoinbaseFetcher::new(root()).exchange(), "coinbase");
    assert_eq!(binance::BinanceFetcher::new(root()).exchange(), "binance");
    assert_eq!(binance_ohlcv::BinanceFetcher::new(root()).exchange(), "binance");
    assert_eq!(KrakenFetcher::new(root()).data_root(), "data");
}

#[test]
fn seconds_are_cut_towards_the_epoch() {
    assert_eq!(to_secs(1_999_999), 1);
    assert_eq!(to_secs(-1_999_999), -1);
}

// ── Ledger ──────────────────────────────────────────────────────────────────

#[test]
fn cursor_names_the_month_to_continue() {
    let mut cursor = Cursor::blank();
    assert_eq!(seed_month(&cursor), Ok(None));
    cursor.advance(FEBRUARY_2024, 1);
    assert_eq!(seed_month(&cursor), Ok(Some((2024, 2))));
    cursor.advance(i64::MAX, 1);
    assert_eq!(seed_month(&cursor), Err(FetchError::InvalidCursor));
}

#[test]
fn months_are_handed_out_when_the_next_begins() {
    let mut ledger = MonthLedger::resume(Cursor::blank(), None, Vec::new());
    let flushes = ledger.offer_all(&vec![
        row(FEBRUARY_2024 - 2),
        row(FEBRUARY_2024 - 1),
        row(FEBRUARY_2024),
        row(MARCH_2024),
    ]);
    assert_eq!(flushes.len(), 2);
    assert_eq!(times(&flushes[0].rows), vec![FEBRUARY_2024 - 2, FEBRUARY_2024 - 1]);
    assert_eq!(flushes[0].cursor.last_ts_micros, Some(FEBRUARY_2024 - 1));
    assert_eq!(flushes[0].cursor.last_ts_human.as_deref(), Some("2024-01-31T23:59:59Z"));
    assert_eq!(flushes[0].cursor.rows_written, 2);
    assert_eq!(times(&flushes[1].rows), vec![FEBRUARY_2024]);
    assert_eq!(flushes[1].cursor.rows_written, 3);
    assert_eq!(ledger.total_rows(), 3);
    let last = ledger.flush().unwrap();
    assert_eq!(times(&last.rows), vec![MARCH_2024]);
    assert_eq!(last.cursor.rows_written, 4);
    assert_eq!(ledger.total_rows(), 4);
    assert!(ledger.flush().is_none());
}

#[test]
fn fetching_again_adds_nothing() {
    let pages = vec![row(FEBRUARY_2024), row(FEBRUARY_2024 + 1), row(FEBRUARY_2024 + 2)];
    let mut first = MonthLedger::resume(Cursor::blank(), None, Vec::new());
    assert!(first.offer_all(&pages).is_empty());
    first.settle();
    let written = first.flush().unwrap();
    let mut again = MonthLedger::resume(
        written.cursor.clone(),
        Some((2024, 2)),
        written.rows.clone(),
    );
    assert!(again.offer_all(&pages).is_empty());
    again.settle();
    assert_eq!(times(&again.flush().unwrap().rows), times(&written.rows));
}

#[test]
fn settled_rows_are_not_taken_twice() {
    let mut ledger = MonthLedger::resume(Cursor::blank(), None, Vec::new());
    ledger.offer_all(&vec![row(FEBRUARY_2024), row(FEBRUARY_2024 + 5)]);
    assert!(!ledger.has_stored(FEBRUARY_2024));
    ledger.settle();
    assert!(ledger.has_stored(FEBRUARY_2024 + 5));
    ledger.offer_all(&vec![row(FEBRUARY_2024 + 5), row(FEBRUARY_2024 + 6)]);
    assert_eq!(
        times(&ledger.flush().unwrap().rows),
        vec![FEBRUARY_2024, FEBRUARY_2024 + 5, FEBRUARY_2024 + 6],
    );
    assert!(ledger.has_room(10));
}

#[test]
fn gathered_rows_are_all_kept() {
    let mut ledger = MonthLedger::resume(Cursor::blank(), None, vec![]);
    let flushes = ledger.push_all(&vec![row(MARCH_2024), row(FEBRUARY_2024)]);
    assert_eq!(flushes.len(), 1);
    assert_eq!(times(&flushes[0].rows), vec![MARCH_2024]);
    let last = ledger.push(row(MARCH_2024 + 1)).unwrap();
    assert_eq!(times(&last.rows), vec![FEBRUARY_2024]);
}

// ── Kraken ──────────────────────────────────────────────────────────────────

fn text(s: &str) -> Json {
    Json::Text(s.to_string())
}

fn object(members: Vec<(&str, Json)>) -> Json {
    Json::Object(members.into_iter().map(|(k, v)| (k.to_string(), v)).collect())
}

fn kraken_trade(price: &str, volume: &str, time: f64, side: &str) -> Json {
    Json::Array(vec![
        text(price),
        text(volume),
        Json::Number(number(time)),
        text(side),
        text("m"),
        text(""),
    ])
}

fn kraken_answer(result: Json) -> Json {
    object(vec![("error", Json::Array(vec![])), ("result", result)])
}

#[test]
fn kraken_pages_are_read() {
    let answer = kraken_answer(object(vec![
        (
            "XXBTZUSD",
            Json::Array(vec![
                kraken_trade("43000.1", "0.5", 1_706_745_600.25, "b"),
                Json::Array(vec![text("1"), text("2"), Json::Null]),
                Json::Bool(true),
                kraken_trade("43001.2", "0.25", 1_706_745_601.0, "s"),
                Json::Array(vec![Json::Null, Json::Null, text("late"), text("x")]),
            ]),
        ),
        ("last", text("1706745601000000000")),
    ]));
    match read_answer(&answer) {
        KrakenReply::Page { trades, next_since } => {
            assert_eq!(next_since, 1_706_745_601_000_000_000);
            assert_eq!(trades.len(), 3);
            assert_eq!(trades[0].price, "43000.1");
            assert_eq!(trades[0].volume, "0.5");
            assert_eq!(trades[0].time, number(1_706_745_600.25));
            assert_eq!(trades[0].side, Some("buy"));
            assert_eq!(trades[1].side, Some("sell"));
            assert_eq!(trades[2].price, "");
            assert_eq!(trades[2].time, number(0.0));
            assert_eq!(trades[2].side, None);
        },
        _ => panic!("not a page"),
    }
}

#[test]
fn kraken_faults_are_told_apart() {
    let failed = object(vec![("error", Json::Array(vec![text("EGeneral")]))]);
    assert!(matches!(read_answer(&failed), KrakenReply::ApiError));
    assert!(matches!(read_answer(&Json::Null), KrakenReply::NoResult));
    assert!(matches!(read_answer(&kraken_answer(Json::Array(vec![]))), KrakenReply::NoResult));
    let no_trades = kraken_answer(object(vec![("last", Json::Array(vec![]))]));
    assert!(matches!(read_answer(&no_trades), KrakenReply::NoTrades));
    let no_cursor = kraken_answer(object(vec![
        ("last", text("soon")),
        ("XXBTZUSD", Json::Array(vec![])),
    ]));
    assert!(matches!(read_answer(&no_cursor), KrakenReply::NoCursor));
    let empty = kraken_answer(object(vec![
        ("XXBTZUSD", Json::Array(vec![])),
        ("last", text("5")),
    ]));
    assert!(matches!(read_answer(&empty), KrakenReply::Empty));
}

fn kraken_page(rows: &[(i64, f64, f64)], next_since: i64) -> (KrakenReply, Vec<TradeNumbers>) {
    let trades = rows
        .iter()
        .map(|_| RawTrade {
            price: String::new(),
            volume: String::new(),
            time: number(0.0),
            side: Some("buy"),
        })
        .collect();
    let numbers = rows
        .iter()
        .map(|(ts_micros, price, volume)| TradeNumbers {
            ts_micros: *ts_micros,
            price: number(*price),
            volume: number(*volume),
        })
        .collect();
    (KrakenReply::Page { trades, next_since }, numbers)
}

#[test]
fn kraken_run_walks_to_the_end_of_the_range() {
    let fetcher = KrakenFetcher::new("data".to_string());
    let end = MARCH_2024 + 10;
    let mut run = fetcher.fetch_range(FEBRUARY_2024, end, Cursor::blank(), None, Vec::new());
    assert_eq!(
        run.request_url(),
        "https://api.kraken.com/0/public/Trades?pair=XBTUSD&since=1706745600000000000",
    );
    assert!(run.take_reply(&KrakenReply::Unavailable, &Vec::new()).is_empty());
    assert!(!run.is_done());
    let (page, numbers) = kraken_page(
        &[
            (FEBRUARY_2024, 1.0, 1.0),
            (FEBRUARY_2024 + 1, 0.0, 1.0),
            (FEBRUARY_2024 + 2, 1.0, -1.0),
            (FEBRUARY_2024 + 3, f64::NAN, 1.0),
        ],
        MARCH_2024 * 1_000,
    );
    assert!(run.take_reply(&page, &numbers).is_empty());
    assert!(!run.is_done());
    assert_eq!(
        run.request_url(),
        "https://api.kraken.com/0/public/Trades?pair=XBTUSD&since=1709251200000000000",
    );
    let (page, numbers) = kraken_page(
        &[(MARCH_2024, 2.0, 1.0), (end, 2.0, 1.0), (MARCH_2024 + 1, 2.0, 1.0)],
        end * 1_000,
    );
    let flushes = run.take_reply(&page, &numbers);
    assert_eq!(flushes.len(), 1);
    assert_eq!(times(&flushes[0].rows), vec![FEBRUARY_2024, FEBRUARY_2024 + 3]);
    assert_eq!(flushes[0].rows[0].side, Some("buy"));
    assert_eq!(flushes[0].rows[0].exchange, "kraken");
    assert!(run.is_done());
    assert_eq!(times(&run.finish().unwrap().rows), vec![MARCH_2024]);
    assert_eq!(run.ledger().total_rows(), 3);
}

#[test]
fn kraken_run_stops_without_progress() {
    let fetcher = KrakenFetcher::new("data".to_string());
    let mut run = fetcher.fetch_range(0, MARCH_2024, Cursor::blank(), None, Vec::new());
    assert_eq!(
        run.request_url(),
        "https://api.kraken.com/0/public/Trades?pair=XBTUSD&since=1483228800000000000",
    );
    let (page, numbers) = kraken_page(&[(FEBRUARY_2024, 1.0, 1.0)], 1_483_228_800_000_000_000);
    run.take_reply(&page, &numbers);
    assert!(run.is_done());
    for reply in [
        KrakenReply::Unreadable,
        KrakenReply::ApiError,
        KrakenReply::NoResult,
        KrakenReply::NoTrades,
        KrakenReply::NoCursor,
        KrakenReply::Empty,
    ] {
        let mut run = fetcher.fetch_range(0, MARCH_2024, Cursor::blank(), None, Vec::new());
        assert!(run.take_reply(&reply, &Vec::new()).is_empty());
        assert!(run.is_done());
        assert!(run.finish().is_none());
    }
}

#[test]
fn kraken_run_continues_the_month_of_its_cursor() {
    let mut cursor = Cursor::blank();
    cursor.advance(FEBRUARY_2024 + 5, 7);
    let fetcher = KrakenFetcher::new("data".to_string());
    let seed = vec![row(FEBRUARY_2024), row(FEBRUARY_2024 + 5)];
    let mut run =
        fetcher.fetch_range(FEBRUARY_2024 + 5, MARCH_2024, cursor, Some((2024, 2)), seed);
    let (page, numbers) = kraken_page(
        &[(FEBRUARY_2024 + 5, 1.0, 1.0), (FEBRUARY_2024 + 6, 1.0, 1.0)],
        0,
    );
    run.take_reply(&page, &numbers);
    let last = run.finish().unwrap();
    assert_eq!(times(&last.rows), vec![FEBRUARY_2024, FEBRUARY_2024 + 5, FEBRUARY_2024 + 6]);
    assert_eq!(last.cursor.rows_written, 10);
}

// ── Bitstamp ────────────────────────────────────────────────────────────────

fn ohlc(timestamp: &str) -> OhlcEntry {
    OhlcEntry { timestamp: timestamp.to_string(), close: String::new(), volume: String::new() }
}

#[test]
fn bitstamp_run_walks_forward_by_candles() {
    let fetcher = BitstampFetcher::new("data".to_string());
    let from = FEBRUARY_2024 / 1_000_000;
    let up_to = FEBRUARY_2024 + 300_000_000;
    let mut run = fetcher.fetch_range(FEBRUARY_2024, up_to, Cursor::blank(), None, Vec::new());
    assert_eq!(
        run.request_url(),
        "https://www.bitstamp.net/api/v2/ohlc/btcusd/?step=60&limit=1000&start=1706745600",
    );
    run.take_reply(&BitstampReply::Unavailable, &Vec::new());
    assert!(!run.is_done());
    let page = BitstampReply::Page(vec![
        ohlc(&(from - 60).to_string()),
        ohlc(&from.to_string()),
        ohlc(&(from + 60).to_string()),
        ohlc(&(from + 120).to_string()),
        ohlc("soon"),
        ohlc(&(from + 300).to_string()),
    ]);
    let numbers = vec![
        quote(1.0, 1.0),
        quote(1.0, 0.0),
        quote(2.0, 1.0),
        quote(0.0, 1.0),
        quote(1.0, 1.0),
        quote(1.0, 1.0),
    ];
    assert!(run.take_reply(&page, &numbers).is_empty());
    assert!(!run.is_done());
    assert_eq!(
        run.request_url(),
        "https://www.bitstamp.net/api/v2/ohlc/btcusd/?step=60&limit=1000&start=1706745780",
    );
    run.take_reply(&BitstampReply::Page(Vec::new()), &Vec::new());
    assert!(run.is_done());
    let last = run.finish().unwrap();
    assert_eq!(times(&last.rows), vec![FEBRUARY_2024, FEBRUARY_2024 + 60_000_000]);
    assert_eq!(last.rows[0].quantity, number(0.0));
    assert_eq!(last.rows[0].side, None);
    assert_eq!(last.rows[0].exchange, "bitstamp");
}

#[test]
fn bitstamp_run_is_done_at_the_end_of_the_range() {
    let fetcher = BitstampFetcher::new("data".to_string());
    let run = fetcher.fetch_range(MARCH_2024, MARCH_2024, Cursor::blank(), None, Vec::new());
    assert!(run.is_done());
    let mut run = fetcher.fetch_range(
        FEBRUARY_2024,
        FEBRUARY_2024 + 120_000_000,
        Cursor::blank(),
        None,
        Vec::new(),
    );
    let page = BitstampReply::Page(vec![ohlc(&(FEBRUARY_2024 / 1_000_000 + 60).to_string())]);
    run.take_reply(&page, &vec![quote(1.0, 1.0)]);
    assert!(run.is_done());
}

// ── Coinbase ────────────────────────────────────────────────────────────────

fn candle(start: i64) -> CbCandle {
    CbCandle { start: start.to_string(), close: String::new(), volume: String::new() }
}

#[test]
fn coinbase_run_walks_windows_and_sorts_them() {
    assert_eq!(
        CANDLES_URL,
        "https://api.coinbase.com/api/v3/brokerage/market/products/BTC-USD/candles",
    );
    assert_eq!(PAGE_SECS, 18_000);
    let fetcher = CoinbaseFetcher::new("data".to_string());
    let from = FEBRUARY_2024 / 1_000_000;
    let up_to = FEBRUARY_2024 + 20_000_000_000;
    let mut run = fetcher.fetch_range(FEBRUARY_2024, up_to, Cursor::blank(), None, Vec::new());
    assert_eq!(run.request_range(), (from.to_string(), (from + 18_000).to_string()));
    run.take_reply(&CoinbaseReply::Unavailable, &Vec::new());
    assert_eq!(run.request_range(), (from.to_string(), (from + 18_000).to_string()));
    let page = CoinbaseReply::Page(vec![
        candle(from + 18_000),
        candle(from + 120),
        candle(from + 60),
        candle(from),
    ]);
    let numbers = vec![quote(4.0, 1.0), quote(3.0, 1.0), quote(2.0, 0.0), quote(1.0, 1.0)];
    assert!(run.take_reply(&page, &numbers).is_empty());
    assert!(!run.is_done());
    assert_eq!(
        run.request_range(),
        ((from + 18_000).to_string(), (from + 20_000).to_string()),
    );
    let page = CoinbaseReply::Page(vec![
        candle(from + 20_000),
        candle(from + 18_060),
        candle(from + 18_000),
    ]);
    run.take_reply(&page, &vec![quote(1.0, 1.0), quote(1.0, 1.0), quote(1.0, 1.0)]);
    assert!(run.is_done());
    let last = run.finish().unwrap();
    let secs: Vec<i64> = last.rows.iter().map(|r| r.ts_micros / 1_000_000 - from).collect();
    assert_eq!(secs, vec![0, 120, 18_000, 18_060]);
    assert_eq!(last.rows[0].exchange, "coinbase");
}

// ── Binance ─────────────────────────────────────────────────────────────────

fn zipped(files: &[(&str, &str)]) -> Vec<u8> {
    let mut writer = zip::ZipWriter::new(Bytes::new(Vec::new()));
    for (name, content) in files {
        writer.start_file(*name, zip::write::SimpleFileOptions::default()).unwrap();
        writer.write_all(content.as_bytes()).unwrap();
    }
    writer.finish().unwrap().into_inner()
}

#[test]
fn binance_walk_visits_every_month_of_the_range() {
    let fetcher = binance::BinanceFetcher::new("data".to_string());
    let mut walk = fetcher.fetch_range(0, 1_509_494_400_000_000).unwrap();
    let mut months = Vec::new();
    while !walk.is_done() {
        months.push(walk.month());
        assert_eq!(walk.take_event(&MonthEvent::ShardMissing), MonthAction::Request);
        assert_eq!(walk.month(), months[months.len() - 1]);
        if months.len() == 2 {
            let rows = MonthEvent::Rows(vec![row(1), row(2)]);
            assert_eq!(walk.take_event(&rows), MonthAction::Write);
        } else if months.len() == 3 {
            assert_eq!(walk.take_event(&MonthEvent::Rows(vec![])), MonthAction::Pause);
        } else {
            assert_eq!(walk.take_event(&MonthEvent::NoAnswer), MonthAction::Pause);
        }
    }
    assert_eq!(months, vec![(2017, 8), (2017, 9), (2017, 10)]);
    assert_eq!(walk.total_rows(), 2);
    let walk = fetcher.fetch_range(MARCH_2024 + 5, MARCH_2024 + 6).unwrap();
    assert_eq!(walk.month(), (2024, 3));
    assert!(!walk.is_done());
    assert_eq!(fetcher.fetch_range(i64::MAX, 0).err(), Some(FetchError::InvalidStart));
    assert_eq!(fetcher.fetch_range(0, i64::MAX).err(), Some(FetchError::InvalidEnd));
}

#[test]
fn binance_addresses_name_the_month() {
    assert_eq!(
        binance::BinanceFetcher::new("data".to_string()).request_url(2024, 3),
        "https://data.binance.vision/data/spot/monthly/aggTrades/BTCUSDT/BTCUSDT-aggTrades-2024-03.zip",
    );
    assert_eq!(
        binance_ohlcv::BinanceFetcher::new("data".to_string()).request_url(2017, 12),
        "https://data.binance.vision/data/spot/monthly/klines/BTCUSDT/1m/BTCUSDT-1m-2017-12.zip",
    );
}

#[test]
fn archives_are_read_record_by_record() {
    let bytes = zipped(&[
        ("first.csv", "1,2.5,\"a,b\"\n4,5.5,x\n"),
        ("second.csv", "ignored\n"),
    ]);
    assert_eq!(
        read_archive(&bytes, 2024, 3),
        Ok(vec![texts(&["1", "2.5", "a,b"]), texts(&["4", "5.5", "x"])]),
    );
    assert_eq!(read_archive(&zipped(&[("empty.csv", "")]), 2024, 3), Ok(Vec::new()));
}

#[test]
fn archive_faults_are_told_apart() {
    assert_eq!(read_archive(b"no archive", 2024, 3), Err(ArchiveError::Open));
    assert_eq!(
        read_archive(&zipped(&[]), 2024, 3),
        Err(ArchiveError::Empty { year: 2024, month: 3 }),
    );
    assert_eq!(
        read_archive(&zipped(&[("ragged.csv", "1,2\n3\n")]), 2024, 3),
        Err(ArchiveError::Record),
    );
    let mut broken = zipped(&[("first.csv", "1,2\n3,4\n5,6\n7,8\n")]);
    let at = 30 + "first.csv".len() + 2;
    broken[at] ^= 0xFF;
    broken[at + 1] ^= 0xFF;
    assert_eq!(read_archive(&broken, 2024, 3), Err(ArchiveError::Content));
    let mut lost = zipped(&[("first.csv", "1,2\n")]);
    lost[0] ^= 0xFF;
    assert_eq!(read_archive(&lost, 2024, 3), Err(ArchiveError::Entry));
    assert_eq!(require_file(None, 2024, 3), Err(ArchiveError::Open));
    assert_eq!(require_file(Some(1), 2024, 3), Ok(()));
}

#[test]
fn records_may_be_short() {
    let record = texts(&["a", "b"]);
    assert_eq!(field_text(&record, 1), "b");
    assert_eq!(field_text(&record, 2), "");
}

#[test]
fn aggregated_trades_become_rows() {
    let records = vec![
        texts(&["1", "3.0", "0.5", "1", "1", "1706745600123", "True", "True"]),
        texts(&["2", "4.0", "0.5", "2", "2", "1706745600000000", "false", "True"]),
        texts(&["3", "5.0", "0.5", "3", "3", "1706745599000000000", "true", "True"]),
        texts(&["4", "5.0", "0.5", "4", "4", "soon", "true", "True"]),
        texts(&["5", "5.0", "0.5"]),
        texts(&["6", "0.0", "0.5", "6", "6", "1706745600123", "true", "True"]),
        texts(&["7", "1.0", "0.0", "7", "7", "1706745600123", "true", "True"]),
        texts(&["8", "6.0", "0.5", "8", "8", "-1", "true", "True"]),
        texts(&["9", "7.0", "0.5", "9", "9", "1706745600124"]),
    ];
    let numbers: Vec<QuoteNumbers> = records
        .iter()
        .map(|r| {
            let (price, quantity) = binance::number_texts(r);
            quote(price.parse().unwrap_or(0.0), quantity.parse().unwrap_or(0.0))
        })
        .collect();
    let rows = binance::parse_records(&records, &numbers);
    let seen: Vec<(i64, f64, Option<&str>)> = rows
        .iter()
        .map(|r| (r.ts_micros, f64::from_bits(r.price.bits), r.side))
        .collect();
    assert_eq!(
        seen,
        vec![
            (FEBRUARY_2024 - 1_000_000, 5.0, Some("sell")),
            (FEBRUARY_2024, 4.0, Some("buy")),
            (FEBRUARY_2024 + 123_000, 3.0, Some("sell")),
            (FEBRUARY_2024 + 124_000, 7.0, Some("buy")),
        ],
    );
}

#[test]
fn candles_become_rows() {
    let records = vec![
        texts(&["1735689600000000", "1", "2", "3", "40.5", "2.0", "x"]),
        texts(&["1706745600000", "1", "2", "3", "30.5", "1.0", "x"]),
        texts(&["0", "1", "2", "3", "30.5", "1.0", "x"]),
        texts(&["1706745660000", "1", "2", "3", "", "1.0", "x"]),
    ];
    let numbers: Vec<QuoteNumbers> = records
        .iter()
        .map(|r| {
            let (price, quantity) = binance_ohlcv::number_texts(r);
            quote(price.parse().unwrap_or(0.0), quantity.parse().unwrap_or(0.0))
        })
        .collect();
    let rows = binance_ohlcv::parse_records(&records, &numbers);
    assert_eq!(times(&rows), vec![FEBRUARY_2024, 1_735_689_600_000_000]);
    assert_eq!(rows[0].price, number(30.5));
    assert_eq!(rows[1].quantity, number(2.0));
    assert_eq!(rows[0].side, None);
    assert_eq!(binance_ohlcv::to_micros(999_999_999_999_999), 999_999_999_999_999_000);
    assert_eq!(binance_ohlcv::to_micros(1_000_000_000_000_000), 1_000_000_000_000_000);
}

#[test]
fn pages_hand_out_what_one_page_would() {
    let rows =
        vec![row(FEBRUARY_2024 - 1), row(FEBRUARY_2024), row(FEBRUARY_2024 + 1), row(MARCH_2024)];
    let mut whole = MonthLedger::resume(Cursor::blank(), None, Vec::new());
    let at_once: Vec<Vec<i64>> = whole.offer_all(&rows).iter().map(|f| times(&f.rows)).collect();
    let mut pieces = MonthLedger::resume(Cursor::blank(), None, Vec::new());
    let mut in_turn = Vec::new();
    for r in &rows {
        in_turn.extend(pieces.offer_all(&vec![*r]).iter().map(|f| times(&f.rows)));
        pieces.settle();
    }
    assert_eq!(at_once, in_turn);
    assert_eq!(at_once.len(), 2);
}

#[test]
fn coinbase_window_taken_again_adds_nothing() {
    let fetcher = CoinbaseFetcher::new("data".to_string());
    let from = FEBRUARY_2024 / 1_000_000;
    let page = || CoinbaseReply::Page(vec![candle(from + 60), candle(from)]);
    let numbers = vec![quote(2.0, 1.0), quote(1.0, 1.0)];
    let mut run = fetcher.fetch_range(
        FEBRUARY_2024,
        FEBRUARY_2024 + 36_000_000_000,
        Cursor::blank(),
        None,
        Vec::new(),
    );
    run.take_reply(&page(), &numbers);
    run.take_reply(&page(), &numbers);
    assert_eq!(
        times(&run.finish().unwrap().rows),
        vec![FEBRUARY_2024, FEBRUARY_2024 + 60_000_000],
    );
}

#[test]
fn ledgers_tell_when_they_are_full() {
    let mut cursor = Cursor::blank();
    cursor.rows_written = u64::MAX - 2;
    let ledger = MonthLedger::resume(cursor, None, vec![row(FEBRUARY_2024)]);
    assert!(ledger.has_room(1));
    assert!(!ledger.has_room(2));
}

#[test]
fn binance_walk_leaves_stored_months_alone() {
    let fetcher = binance::BinanceFetcher::new("data".to_string());
    let mut walk = fetcher.fetch_range(FEBRUARY_2024, MARCH_2024 + 1).unwrap();
    let mut passed = 0;
    while !walk.is_done() {
        assert_eq!(walk.take_event(&MonthEvent::ShardExists), MonthAction::GoOn);
        passed += 1;
    }
    assert_eq!(passed, 2);
    assert_eq!(walk.total_rows(), 0);
}

#[test]
fn kraken_keeps_trades_of_one_instant_on_two_pages() {
    let fetcher = KrakenFetcher::new("data".to_string());
    let mut run = fetcher.fetch_range(0, MARCH_2024, Cursor::blank(), None, Vec::new());
    let ts = 1_483_228_800_500_000;
    let (page, numbers) = kraken_page(&[(ts, 1_000.0, 1.0)], ts * 1_000);
    assert!(run.take_reply(&page, &numbers).is_empty());
    assert_eq!(run.reached(), Some(ts));
    let (page, numbers) = kraken_page(&[(ts, 1_001.0, 1.0)], 0);
    assert!(run.take_reply(&page, &numbers).is_empty());
    let last = run.finish().unwrap();
    assert_eq!(times(&last.rows), vec![ts, ts]);
    assert_eq!(last.rows[0].price, number(1_000.0));
    assert_eq!(last.rows[1].price, number(1_001.0));
    assert_eq!(last.cursor.rows_written, 2);
}

#[test]
fn pages_of_one_instant_hand_out_what_one_page_would() {
    let rows = vec![
        row(FEBRUARY_2024 - 1),
        row(FEBRUARY_2024 - 1),
        row(FEBRUARY_2024),
        row(FEBRUARY_2024),
    ];
    let mut ledger = MonthLedger::resume(Cursor::blank(), None, Vec::new());
    let mut handed_out = Vec::new();
    for r in &rows {
        handed_out.extend(ledger.offer_all(&vec![*r]).iter().map(|f| times(&f.rows)));
    }
    handed_out.push(times(&ledger.flush().unwrap().rows));
    assert_eq!(
        handed_out,
        vec![vec![FEBRUARY_2024 - 1, FEBRUARY_2024 - 1], vec![FEBRUARY_2024, FEBRUARY_2024]],
    );
}

#[test]
fn answers_that_cannot_be_read_lose_nothing() {
    let from = FEBRUARY_2024 / 1_000_000;
    let up_to = FEBRUARY_2024 + 36_000_000_000;
    let kraken = KrakenFetcher::new("data".to_string());
    let mut run = kraken.fetch_range(FEBRUARY_2024, up_to, Cursor::blank(), None, Vec::new());
    let (page, numbers) = kraken_page(&[(FEBRUARY_2024, 1.0, 1.0)], up_to * 1_000);
    run.take_reply(&page, &numbers);
    run.take_reply(&KrakenReply::Unreadable, &Vec::new());
    assert!(run.is_done());
    assert_eq!(times(&run.finish().unwrap().rows), vec![FEBRUARY_2024]);
    let bitstamp = BitstampFetcher::new("data".to_string());
    let mut run = bitstamp.fetch_range(FEBRUARY_2024, up_to, Cursor::blank(), None, Vec::new());
    let page = BitstampReply::Page(vec![ohlc(&from.to_string()), ohlc(&(from + 60).to_string())]);
    run.take_reply(&page, &vec![quote(1.0, 1.0), quote(1.0, 1.0)]);
    assert_eq!(run.cursor_secs(), from + 120);
    assert_eq!(run.up_to_secs(), up_to / 1_000_000);
    run.take_reply(&BitstampReply::Unreadable, &Vec::new());
    assert!(run.is_done());
    assert_eq!(run.finish().unwrap().rows.len(), 2);
    let coinbase = CoinbaseFetcher::new("data".to_string());
    let mut run = coinbase.fetch_range(FEBRUARY_2024, up_to, Cursor::blank(), None, Vec::new());
    run.take_reply(&CoinbaseReply::Page(vec![candle(from)]), &vec![quote(1.0, 1.0)]);
    run.take_reply(&CoinbaseReply::Unreadable, &Vec::new());
    assert!(run.is_done());
    assert_eq!(times(&run.finish().unwrap().rows), vec![FEBRUARY_2024]);
}

/// The rows that a run over minute candles leaves in the last month's shard, with
/// the cursor to go on from.
fn minutes(from: i64, up_to: i64, cursor: Cursor, seed: Vec<TradeRow>) -> (Vec<TradeRow>, Cursor) {
    let fetcher = BitstampFetcher::new("data".to_string());
    let key = seed_month(&cursor).unwrap();
    let mut run = fetcher.fetch_range(from, up_to, cursor, key, seed);
    while !run.is_done() {
        let start = run.cursor_secs();
        let entries: Vec<OhlcEntry> =
            (0..1_000).map(|i| ohlc(&(start + 60 * i).to_string())).collect();
        let numbers: Vec<QuoteNumbers> =
            (0..1_000).map(|i| quote((start + 60 * i) as f64, 1.0)).collect();
        assert!(run.take_reply(&BitstampReply::Page(entries), &numbers).is_empty());
    }
    let last = run.finish().unwrap();
    (last.rows, last.cursor)
}

#[test]
fn adjoining_ranges_make_one() {
    let minute = 60_000_000;
    let (a, b, c) = (FEBRUARY_2024, FEBRUARY_2024 + 1_700 * minute, FEBRUARY_2024 + 3_001 * minute);
    let (whole, whole_cursor) = minutes(a, c, Cursor::blank(), Vec::new());
    let (first, cursor) = minutes(a, b, Cursor::blank(), Vec::new());
    assert_eq!(first.len(), 1_700);
    let (both, both_cursor) = minutes(b, c, cursor, first);
    assert_eq!(times(&both), times(&whole));
    assert_eq!(whole.len(), 3_001);
    assert_eq!(both_cursor.last_ts_micros, whole_cursor.last_ts_micros);
    assert_eq!(both[2_500].price, whole[2_500].price);
}

/// The months that a run over an exchange with a candle every half hour hands out.
/// Answers hold the end of their window too, newest first.
fn coinbase_months(from: i64, up_to: i64, cursor: Cursor, seed: Vec<TradeRow>) -> Vec<MonthFlush> {
    let key = seed_month(&cursor).unwrap();
    let fetcher = CoinbaseFetcher::new("data".to_string());
    let mut run = fetcher.fetch_range(from, up_to, cursor, key, seed);
    let mut months: Vec<MonthFlush> = Vec::new();
    while !run.is_done() {
        let (start, end) = run.request_range();
        let (start, end): (i64, i64) = (start.parse().unwrap(), end.parse().unwrap());
        let mut candles: Vec<CbCandle> =
            (start..end + 1).filter(|t| t % 1_800 == 0).map(candle).collect();
        candles.reverse();
        let numbers = vec![quote(2.0, 1.0); candles.len()];
        months.extend(run.take_reply(&CoinbaseReply::Page(candles), &numbers));
    }
    months.extend(run.finish());
    months
}

#[test]
fn coinbase_range_fetched_twice_changes_nothing() {
    let hour = 3_600_000_000;
    let (from, up_to) = (MARCH_2024 - 3 * hour, MARCH_2024 + 3 * hour);
    let first = coinbase_months(from, up_to, Cursor::blank(), Vec::new());
    let halves = |a: i64, b: i64| -> Vec<i64> {
        (a..b).map(|i| MARCH_2024 + i * hour / 2).collect()
    };
    assert_eq!(first.len(), 2);
    assert_eq!(times(&first[0].rows), halves(-6, 0));
    assert_eq!(times(&first[1].rows), halves(0, 6));
    let saved = first[1].cursor.clone();
    assert_eq!(saved.last_ts_micros, Some(MARCH_2024 + 5 * hour / 2));
    let resumed = saved.resume_from(from);
    let again = coinbase_months(resumed, up_to, saved.clone(), first[1].rows.clone());
    assert_eq!(again.len(), 1);
    assert_eq!(times(&again[0].rows), halves(0, 6));
    assert_eq!(again[0].cursor.last_ts_micros, saved.last_ts_micros);
    let over = coinbase_months(from, up_to, saved.clone(), first[1].rows.clone());
    assert_eq!(over.len(), 1);
    assert_eq!(times(&over[0].rows), halves(0, 6));
}

#[test]
fn bitstamp_range_fetched_twice_changes_nothing() {
    let from = FEBRUARY_2024 / 1_000_000;
    let up_to = FEBRUARY_2024 + 600_000_000;
    let (rows, cursor) = minutes(FEBRUARY_2024, up_to, Cursor::blank(), Vec::new());
    let expected: Vec<i64> = (0..10).map(|i| (from + 60 * i) * 1_000_000).collect();
    assert_eq!(times(&rows), expected);
    let (again, saved) = minutes(FEBRUARY_2024, up_to, cursor.clone(), rows);
    assert_eq!(times(&again), expected);
    assert_eq!(saved.last_ts_micros, cursor.last_ts_micros);
}

#[test]
fn rows_can_be_offered_where_they_are_left_out_or_placed() {
    let blank = MonthLedger::resume(Cursor::blank(), None, Vec::new());
    assert!(blank.can_offer(&vec![row(FEBRUARY_2024), row(MARCH_2024)]));
    assert!(!blank.can_offer(&vec![row(FEBRUARY_2024), row(i64::MAX)]));
    assert!(!blank.can_offer(&vec![row(i64::MIN)]));
    assert!(!blank.can_offer(&vec![row(FEBRUARY_2024), row(i64::MIN)]));
    assert!(blank.can_offer(&vec![row(FEBRUARY_2024), row(MARCH_2024), row(i64::MIN)]));
}
