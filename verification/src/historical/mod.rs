//! Historical tick collection: where it starts, the rows it keeps, the files it
//! keeps them in, and how each exchange's history is walked.

pub mod cursor;
pub mod merge;
pub mod schema;
pub mod sources;
pub mod store;

use vstd::prelude::*;

use crate::calendar::{is_date, midnight, month_start, DAY_MICROS};
use crate::text::same_text;

verus! {

/// The year of the earliest day that data is collected from.
pub const ORIGIN_YEAR: i32 = 2017;

/// The first instant of a day, in microseconds since the UNIX epoch, where the
/// day exists.
pub fn day_micros(year: i32, month: u32, day: u32) -> (r: Option<i64>)
    ensures
        match r {
            Some(t) => is_date(year as int, month as int, day as int) && t == month_start(
                year as int,
                month as int,
            ) + (day - 1) * DAY_MICROS,
            None => !is_date(year as int, month as int, day as int),
        },
{
    midnight(year, month, day)
}

/// The earliest instant that data is collected from: the start of 2017.
pub fn origin_micros() -> (t: i64)
    ensures
        t == month_start(2017, 1),
        t == 1_483_228_800_000_000,
{
    proof {
        crate::calendar::lemma_origin();
    }
    midnight(ORIGIN_YEAR, 1, 1).unwrap()
}

/// The number of the first month of 2017 that an exchange has data for.
pub open spec fn floor_month(exchange: Seq<char>) -> int {
    if exchange == "binance"@ {
        8
    } else {
        1
    }
}

/// The earliest instant for which an exchange has reliable public data. Binance
/// opened its spot market in August 2017; for every other exchange it is the
/// start of that year.
pub fn exchange_floor(exchange: &str) -> (t: i64)
    ensures
        t == month_start(2017, floor_month(exchange@)),
        t == if exchange@ == "binance"@ {
            1_501_545_600_000_000i64
        } else {
            1_483_228_800_000_000i64
        },
{
    proof {
        crate::calendar::lemma_origin();
    }
    if same_text(exchange, "binance") {
        midnight(ORIGIN_YEAR, 8, 1).unwrap()
    } else {
        origin_micros()
    }
}

} // verus!
