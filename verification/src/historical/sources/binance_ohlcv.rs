//! Binance's history, in candles of one minute.
//!
//! The candles of each completed month are published as one ZIP file, with a
//! single CSV file in it that has no header:
//!
//! ```text
//! https://data.binance.vision/data/spot/monthly/klines/BTCUSDT/1m/
//!     BTCUSDT-1m-{YYYY}-{MM}.zip
//! ```
//!
//! Of a record the opening time stands in field 0, the closing price in field 4
//! and the volume in field 5. Up to the end of 2024 times are in milliseconds,
//! from then on in microseconds. Candles have no taker side.

use vstd::prelude::*;

use crate::calendar::{month_of, placeable};
use crate::historical::exchange_floor;
use crate::historical::schema::{law_sorting_only_moves_rows, sort_rows, sorts, TradeRow};
use crate::historical::sources::archive::{field_or_empty, field_text};
use crate::historical::sources::binance::{raw_time, read_time};
use crate::historical::sources::months::{MonthWalk, WalkModel};
use crate::historical::sources::{first_instant, FetchError, HistoricalFetcher, QuoteNumbers};
use crate::text::{
    integer_text, integer_value, two_digit_text, write_i64, write_two_digits,
};

verus! {

// ── Records ─────────────────────────────────────────────────────────────────

/// A time in microseconds: from sixteen digits on it is in microseconds already,
/// below that in milliseconds.
pub open spec fn kline_micros(raw: int) -> int {
    if raw >= 1_000_000_000_000_000 {
        raw
    } else {
        raw * 1_000
    }
}

/// Brings a raw time to microseconds.
pub fn to_micros(raw: i64) -> (t: i64)
    requires
        raw * 1_000 >= i64::MIN,
    ensures
        t == kline_micros(raw as int),
{
    if raw >= 1_000_000_000_000_000 {
        raw
    } else {
        raw * 1_000
    }
}

/// The row of a record.
pub open spec fn kline_row(record: Seq<String>, n: QuoteNumbers) -> TradeRow {
    TradeRow {
        ts_micros: kline_micros(raw_time(record, 0)) as i64,
        price: n.price,
        quantity: n.quantity,
        side: None,
        exchange: "binance",
    }
}

/// The rows of records in the order they came, without those that have no
/// positive time, price or quantity.
pub open spec fn kline_rows(records: Seq<Vec<String>>, numbers: Seq<QuoteNumbers>) -> Seq<TradeRow>
    decreases records.len(),
{
    if records.len() == 0 {
        Seq::empty()
    } else {
        let before = kline_rows(records.drop_last(), numbers.drop_last());
        let (r, n) = (records.last()@, numbers.last());
        if raw_time(r, 0) <= 0 || n.price.at_most_zero() || n.quantity.at_most_zero() {
            before
        } else {
            before.push(kline_row(r, n))
        }
    }
}

/// The texts of a record's price and quantity.
pub fn number_texts(record: &Vec<String>) -> (r: (String, String))
    ensures
        r.0@ == field_or_empty(record@, 4),
        r.1@ == field_or_empty(record@, 5),
{
    (field_text(record, 4), field_text(record, 5))
}

/// Makes the rows of a month's records, in the order of time.
pub fn parse_records(records: &Vec<Vec<String>>, numbers: &Vec<QuoteNumbers>) -> (rows: Vec<
    TradeRow,
>)
    requires
        records@.len() == numbers@.len(),
    ensures
        sorts(rows@, kline_rows(records@, numbers@)),
{
    let mut rows: Vec<TradeRow> = Vec::new();
    assert(records@.take(0) =~= Seq::<Vec<String>>::empty());
    for i in 0..records.len()
        invariant
            records@.len() == numbers@.len(),
            rows@ == kline_rows(records@.take(i as int), numbers@.take(i as int)),
    {
        assert(records@.take(i + 1).drop_last() =~= records@.take(i as int));
        assert(numbers@.take(i + 1).drop_last() =~= numbers@.take(i as int));
        let record = &records[i];
        let n = numbers[i];
        let raw: i64 = read_time(record, 0);
        if raw > 0 && !n.price.is_at_most_zero() && !n.quantity.is_at_most_zero() {
            let ts_micros: i64 = to_micros(raw);
            rows.push(
                TradeRow {
                    ts_micros,
                    price: n.price,
                    quantity: n.quantity,
                    side: None,
                    exchange: "binance",
                },
            );
        }
    }
    assert(records@.take(records@.len() as int) =~= records@);
    assert(numbers@.take(numbers@.len() as int) =~= numbers@);
    sort_rows(&mut rows);
    rows
}

// ── The source ──────────────────────────────────────────────────────────────

/// The source of Binance's history in candles of one minute.
pub struct BinanceFetcher {
    data_root: String,
}

impl HistoricalFetcher for BinanceFetcher {
    open spec fn name(&self) -> Seq<char> {
        "binance"@
    }

    fn exchange(&self) -> (name: &'static str)
        ensures
            name@ == "binance"@,
    {
        "binance"
    }
}

impl BinanceFetcher {
    /// The directory that the history is kept under.
    pub closed spec fn root(self) -> Seq<char> {
        self.data_root@
    }

    /// A source that keeps its history under the given directory.
    pub fn new(data_root: String) -> (f: Self)
        ensures
            f.root() == data_root@,
    {
        BinanceFetcher { data_root }
    }

    /// The directory that the history is kept under.
    pub fn data_root(&self) -> (root: &str)
        ensures
            root@ == self.root(),
    {
        self.data_root.as_str()
    }

    /// Starts a walk over the months from the one of `resume_from_micros` to the
    /// last that begins before `up_to_micros`.
    pub fn fetch_range(&self, resume_from_micros: i64, up_to_micros: i64) -> (r: Result<
        MonthWalk,
        FetchError,
    >)
        ensures
            ({
                let from = first_instant(resume_from_micros as int, 1_501_545_600_000_000);
                if !placeable(from) {
                    r == Err::<MonthWalk, FetchError>(FetchError::InvalidStart)
                } else if !placeable(up_to_micros as int) {
                    r == Err::<MonthWalk, FetchError>(FetchError::InvalidEnd)
                } else {
                    r matches Ok(walk) && walk@ == (WalkModel {
                        year: month_of(from).0 as int,
                        month: month_of(from).1 as int,
                        end: up_to_micros as int,
                        total: 0,
                    }) && walk@.wf()
                }
            }),
    {
        MonthWalk::start(resume_from_micros, up_to_micros, exchange_floor("binance"))
    }

    /// The address of a month's file.
    pub fn request_url(&self, year: i32, month: u32) -> (url: String)
        ensures
            url@ == "https://data.binance.vision/data/spot/monthly/klines/BTCUSDT/1m/BTCUSDT-1m-"@
                + integer_text(year as int) + "-"@ + two_digit_text(month as nat) + ".zip"@,
    {
        let mut url =
            "https://data.binance.vision/data/spot/monthly/klines/BTCUSDT/1m/BTCUSDT-1m-".to_owned();
        url.append(write_i64(year as i64).as_str());
        url.append("-");
        url.append(write_two_digits(month).as_str());
        url.append(".zip");
        url
    }
}

/// Which record each row is that of.
proof fn lemma_rows_from_records(records: Seq<Vec<String>>, numbers: Seq<QuoteNumbers>) -> (at: Seq<int>)
    requires
        records.len() == numbers.len(),
    ensures
        ({
            let rows = kline_rows(records, numbers);
            &&& at.len() == rows.len()
            &&& forall|i: int, j: int| 0 <= i < j < at.len() ==> #[trigger] at[i] < #[trigger] at[j]
            &&& forall|i: int|
                0 <= i < at.len() ==> {
                    let k = #[trigger] at[i];
                    0 <= k < records.len() && (raw_time(records[k]@, 0) > 0
                        && !numbers[k].price.at_most_zero()
                        && !numbers[k].quantity.at_most_zero())
                        && (rows[i] == kline_row(records[k]@, numbers[k]))
                }
            &&& forall|k: int|
                0 <= k < records.len() && (raw_time(records[k]@, 0) > 0
                    && !numbers[k].price.at_most_zero()
                    && !numbers[k].quantity.at_most_zero()) ==> #[trigger] at.contains(k)
        }),
    decreases records.len(),
{
    if records.len() == 0 {
        Seq::empty()
    } else {
        let last = records.len() - 1;
        let before = lemma_rows_from_records(records.drop_last(), numbers.drop_last());
        let earlier = kline_rows(records.drop_last(), numbers.drop_last());
        let rows = kline_rows(records, numbers);
        let at = if rows.len() > earlier.len() {
            before.push(last)
        } else {
            before
        };
        assert forall|i: int| 0 <= i < at.len() implies {
            let k = #[trigger] at[i];
            0 <= k < records.len() && (raw_time(records[k]@, 0) > 0
                && !numbers[k].price.at_most_zero() && !numbers[k].quantity.at_most_zero())
                && (rows[i] == kline_row(records[k]@, numbers[k]))
        } by {
            if i < before.len() {
                assert(at[i] == before[i]);
                assert(rows[i] == earlier[i]);
            }
        }
        assert forall|i: int, j: int| 0 <= i < j < at.len() implies #[trigger] at[i]
            < #[trigger] at[j] by {
            assert(at[i] == before[i]);
            if j < before.len() {
                assert(at[j] == before[j]);
            }
        }
        assert forall|k: int|
            0 <= k < records.len() && (raw_time(records[k]@, 0) > 0
                && !numbers[k].price.at_most_zero()
                && !numbers[k].quantity.at_most_zero()) implies #[trigger] at.contains(k) by {
            if k < last {
                assert(before.contains(k));
                let i = choose|i: int| 0 <= i < before.len() && before[i] == k;
                assert(at[i] == k);
            } else {
                assert(at[at.len() - 1] == k);
            }
        }
        at
    }
}

/// Every row of a month is that of one record, field by field: its price and
/// quantity are those of the record's numbers, its time is the record's in
/// microseconds, and it has no side. Each row has a record of its own, the rows
/// stand in the order of time, and no record is left out that has a positive time, price and quantity.
pub proof fn law_every_row_is_a_record_of_the_month(
    records: Seq<Vec<String>>,
    numbers: Seq<QuoteNumbers>,
    rows: Seq<TradeRow>,
) -> (at: Seq<int>)
    requires
        records.len() == numbers.len(),
        sorts(rows, kline_rows(records, numbers)),
    ensures
        at.len() == rows.len(),
        forall|i: int, j: int|
            0 <= i < j < rows.len() ==> (#[trigger] rows[i]).ts_micros <= (
            #[trigger] rows[j]).ts_micros,
        forall|i: int, j: int| 0 <= i < j < at.len() ==> #[trigger] at[i] != #[trigger] at[j],
        forall|i: int|
            0 <= i < at.len() ==> {
                let k = #[trigger] at[i];
                &&& 0 <= k < records.len()
                &&& rows[i].price == numbers[k].price
                &&& rows[i].quantity == numbers[k].quantity
                &&& rows[i].exchange@ == "binance"@
                &&& rows[i].side is None
                &&& !numbers[k].price.at_most_zero()
                &&& !numbers[k].quantity.at_most_zero()
                &&& rows[i].ts_micros > 0
                &&& records[k]@.len() > 0
            },
        forall|i: int|
            0 <= i < at.len() ==> {
                &&& integer_value(records[at[i]]@[0]@) matches Some(t) && 0 < t <= i64::MAX && (
                #[trigger] rows[i]).ts_micros == (if t < 1_000_000_000_000_000 {
                    t * 1_000
                } else {
                    t
                })
            },
        forall|k: int|
            0 <= k < records.len() && records[k]@.len() > 0 && (integer_value(records[k]@[0]@)
                matches Some(t) && 0 < t <= i64::MAX) && !numbers[k].price.at_most_zero()
                && !numbers[k].quantity.at_most_zero() ==> #[trigger] at.contains(k),
{
    let found = kline_rows(records, numbers);
    let from = law_sorting_only_moves_rows(rows, found);
    let origin = lemma_rows_from_records(records, numbers);
    let at = Seq::new(rows.len(), |i: int| origin[from[i]]);
    assert forall|i: int| 0 <= i < at.len() implies {
        let k = #[trigger] at[i];
        &&& 0 <= k < records.len()
        &&& raw_time(records[k]@, 0) > 0
        &&& rows[i] == kline_row(records[k]@, numbers[k])
        &&& !numbers[k].price.at_most_zero()
        &&& !numbers[k].quantity.at_most_zero()
        &&& records[k]@.len() > 0
        &&& rows[i].ts_micros > 0
    } by {
        let q = from[i];
        let k = origin[q];
        assert(rows[i] == found[q]);
    }
    assert forall|i: int, j: int| 0 <= i < j < at.len() implies #[trigger] at[i]
        != #[trigger] at[j] by {
        let (p, q) = (from[i], from[j]);
        assert(p != q);
        if p < q {
            assert(origin[p] < origin[q]);
        } else {
            assert(origin[q] < origin[p]);
        }
    }
    assert forall|k: int|
        0 <= k < records.len() && records[k]@.len() > 0 && (integer_value(records[k]@[0]@)
            matches Some(t) && 0 < t <= i64::MAX) && !numbers[k].price.at_most_zero()
            && !numbers[k].quantity.at_most_zero() implies #[trigger] at.contains(k) by {
        assert(origin.contains(k));
        let q = choose|q: int| 0 <= q < origin.len() && origin[q] == k;
        assert(from.contains(q));
        let i = choose|i: int| 0 <= i < from.len() && from[i] == q;
        assert(at[i] == k);
    }
    at
}

} // verus!
