//! The exchanges whose history is collected.
//!
//! Each source decides what to ask its exchange for next and what to make of
//! the answer. Asking, waiting and writing are left to the caller, who is
//! handed the months to write and the cursor to keep with each.

pub mod archive;
pub mod binance;
pub mod binance_ohlcv;
pub mod bitstamp;
pub mod coinbase;
pub mod json;
pub mod kraken;
pub mod laws;
pub mod ledger;
pub mod months;
pub mod stored;

use vstd::prelude::*;

use crate::binary64::Binary64;
use crate::text::same_text;

verus! {

/// Milliseconds to wait between two requests to an exchange.
pub open spec fn polite_delay(exchange: Seq<char>) -> u64 {
    if exchange == "binance"@ {
        200
    } else if exchange == "kraken"@ {
        1_000
    } else if exchange == "bitstamp"@ {
        400
    } else if exchange == "coinbase"@ {
        300
    } else {
        500
    }
}

/// The delay, in milliseconds, that keeps requests within an exchange's public
/// rate limits.
pub fn rate_limit_millis(exchange: &str) -> (ms: u64)
    ensures
        ms == polite_delay(exchange@),
        exchange@ == "binance"@ ==> ms == 200,
        exchange@ == "kraken"@ ==> ms == 1_000,
        exchange@ == "bitstamp"@ ==> ms == 400,
        exchange@ == "coinbase"@ ==> ms == 300,
        exchange@ != "binance"@ && exchange@ != "kraken"@ && exchange@ != "bitstamp"@ && exchange@
            != "coinbase"@ ==> ms == 500,
{
    proof {
        reveal_strlit("binance");
        reveal_strlit("kraken");
        reveal_strlit("bitstamp");
        reveal_strlit("coinbase");
        assert("binance"@.len() == 7 && "kraken"@.len() == 6);
        assert("bitstamp"@.len() == 8 && "coinbase"@.len() == 8);
        assert("bitstamp"@[0] == 'b' && "coinbase"@[0] == 'c');
    }
    if same_text(exchange, "binance") {
        200
    } else if same_text(exchange, "kraken") {
        1_000
    } else if same_text(exchange, "bitstamp") {
        400
    } else if same_text(exchange, "coinbase") {
        300
    } else {
        500
    }
}

/// The instant that a run starts at: the one asked for, or the earliest for
/// which the exchange has data where that is later.
pub open spec fn first_instant(resume_from: int, floor: int) -> int {
    if resume_from > floor {
        resume_from
    } else {
        floor
    }
}

/// The later of two instants.
fn later_of(a: i64, b: i64) -> (t: i64)
    ensures
        t == first_instant(a as int, b as int),
        t >= a && t >= b,
        t == a || t == b,
{
    if a > b {
        a
    } else {
        b
    }
}

/// Whole seconds of an instant, towards the epoch.
pub open spec fn secs_of(micros: int) -> int {
    if micros >= 0 {
        micros / 1_000_000
    } else {
        -((-micros) / 1_000_000)
    }
}

/// Whole seconds of an instant, towards the epoch.
pub fn to_secs(micros: i64) -> (secs: i64)
    ensures
        secs == secs_of(micros as int),
        micros >= 0 ==> secs * 1_000_000 <= micros < (secs + 1) * 1_000_000,
        micros < 0 ==> (secs - 1) * 1_000_000 < micros <= secs * 1_000_000,
{
    micros / 1_000_000
}

/// What the texts of a price and a quantity stand for.
#[derive(Clone, Copy, Debug)]
pub struct QuoteNumbers {
    pub price: Binary64,
    pub quantity: Binary64,
}

/// The source of one exchange's history.
pub trait HistoricalFetcher {
    /// The exchange's name.
    spec fn name(&self) -> Seq<char>;

    /// The exchange's name, in lower-case ASCII.
    fn exchange(&self) -> (name: &'static str)
        ensures
            name@ == self.name(),
    ;
}

/// Why a run over an exchange's history cannot start.
#[derive(Clone, Copy, Debug, PartialEq, Eq, Structural)]
pub enum FetchError {
    /// The instant to start at lies outside the calendar.
    InvalidStart,
    /// The instant to stop at lies outside the calendar.
    InvalidEnd,
    /// The cursor lies outside the calendar.
    InvalidCursor,
}

/// A run never starts before the instant asked for nor before the exchange has
/// data, and it starts at one of the two.
pub proof fn law_runs_start_where_there_is_data(resume_from: int, floor: int)
    ensures
        first_instant(resume_from, floor) >= resume_from,
        first_instant(resume_from, floor) >= floor,
        first_instant(resume_from, floor) == resume_from || first_instant(resume_from, floor)
            == floor,
{
}

/// Whole seconds differ from their instant by less than one second, and lie on
/// the side of the epoch.
pub proof fn law_seconds_are_cut_towards_the_epoch(micros: int)
    ensures
        micros >= 0 ==> secs_of(micros) * 1_000_000 <= micros < (secs_of(micros) + 1) * 1_000_000,
        micros < 0 ==> (secs_of(micros) - 1) * 1_000_000 < micros <= secs_of(micros) * 1_000_000,
{
}

} // verus!
