//! The trades that training rows are made of.

use vstd::prelude::*;

use crate::binary64::Binary64;
use crate::historical::schema::OwnedRow;
use crate::text::{lower, same_text, to_lower};

verus! {

/// The taker's side of a trade.
#[derive(Clone, Copy, Debug, PartialEq, Eq, Structural)]
pub enum TradeSide {
    Buy,
    Sell,
}

/// The exchange of a trade.
#[derive(Clone, Copy, Debug, PartialEq, Eq, Structural)]
pub enum Exchange {
    Binance,
    Coinbase,
    Kraken,
    Bitstamp,
}

/// A trade as it is read.
pub struct TradeRow {
    pub ts_micros: i64,
    pub price: Binary64,
    pub quantity: Binary64,
    /// Taker side; empty where the source has none.
    pub side: String,
    pub exchange: String,
}

/// The side that a text stands for, in upper or lower case.
pub open spec fn side_named(text: Seq<char>) -> Option<TradeSide> {
    let t = lower(text);
    if t == "buy"@ || t == "b"@ {
        Some(TradeSide::Buy)
    } else if t == "sell"@ || t == "s"@ {
        Some(TradeSide::Sell)
    } else {
        None
    }
}

/// The exchange that a text names, in upper or lower case.
pub open spec fn exchange_named(text: Seq<char>) -> Option<Exchange> {
    let t = lower(text);
    if t == "binance"@ {
        Some(Exchange::Binance)
    } else if t == "coinbase"@ {
        Some(Exchange::Coinbase)
    } else if t == "kraken"@ {
        Some(Exchange::Kraken)
    } else if t == "bitstamp"@ {
        Some(Exchange::Bitstamp)
    } else {
        None
    }
}

impl TradeRow {
    /// The trade of a stored row.
    pub fn from_stored(row: OwnedRow) -> (t: Self)
        ensures
            t.ts_micros == row.ts_micros,
            t.price == row.price,
            t.quantity == row.quantity,
            t.side@ == (match row.side {
                Some(s) => s@,
                None => Seq::<char>::empty(),
            }),
            t.exchange@ == row.exchange@,
    {
        let side = match row.side {
            Some(s) => s,
            None => String::new(),
        };
        TradeRow {
            ts_micros: row.ts_micros,
            price: row.price,
            quantity: row.quantity,
            side,
            exchange: row.exchange,
        }
    }

    /// The taker's side, where the trade has one.
    pub fn parse_side(&self) -> (side: Option<TradeSide>)
        ensures
            side == side_named(self.side@),
    {
        let t = to_lower(self.side.as_str());
        let t = t.as_str();
        if same_text(t, "buy") || same_text(t, "b") {
            Some(TradeSide::Buy)
        } else if same_text(t, "sell") || same_text(t, "s") {
            Some(TradeSide::Sell)
        } else {
            None
        }
    }

    /// The trade's exchange, or its name in lower case where no exchange is
    /// known by it.
    pub fn parse_exchange(&self) -> (r: Result<Exchange, String>)
        ensures
            match exchange_named(self.exchange@) {
                Some(e) => r == Ok::<Exchange, String>(e),
                None => r matches Err(name) && name@ == lower(self.exchange@),
            },
    {
        let name = to_lower(self.exchange.as_str());
        let t = name.as_str();
        if same_text(t, "binance") {
            Ok(Exchange::Binance)
        } else if same_text(t, "coinbase") {
            Ok(Exchange::Coinbase)
        } else if same_text(t, "kraken") {
            Ok(Exchange::Kraken)
        } else if same_text(t, "bitstamp") {
            Ok(Exchange::Bitstamp)
        } else {
            Err(name)
        }
    }
}

/// The place of an exchange among the four.
pub open spec fn slot_of(e: Exchange) -> int {
    match e {
        Exchange::Binance => 0,
        Exchange::Coinbase => 1,
        Exchange::Kraken => 2,
        Exchange::Bitstamp => 3,
    }
}

/// The exchange at a place among the four.
pub open spec fn exchange_at(slot: int) -> Exchange {
    if slot == 0 {
        Exchange::Binance
    } else if slot == 1 {
        Exchange::Coinbase
    } else if slot == 2 {
        Exchange::Kraken
    } else {
        Exchange::Bitstamp
    }
}

/// The place of an exchange among the four.
pub fn exchange_slot(e: Exchange) -> (slot: usize)
    ensures
        slot == slot_of(e),
        slot < 4,
{
    match e {
        Exchange::Binance => 0,
        Exchange::Coinbase => 1,
        Exchange::Kraken => 2,
        Exchange::Bitstamp => 3,
    }
}

/// The exchange at a place among the four.
pub fn slot_exchange(slot: usize) -> (e: Exchange)
    requires
        slot < 4,
    ensures
        e == exchange_at(slot as int),
{
    if slot == 0 {
        Exchange::Binance
    } else if slot == 1 {
        Exchange::Coinbase
    } else if slot == 2 {
        Exchange::Kraken
    } else {
        Exchange::Bitstamp
    }
}

/// Each exchange has one place, and each place one exchange.
pub proof fn law_slots_and_exchanges_match(e: Exchange, slot: int)
    requires
        0 <= slot < 4,
    ensures
        0 <= slot_of(e) < 4,
        exchange_at(slot_of(e)) == e,
        slot_of(exchange_at(slot)) == slot,
{
}

/// Sides and exchanges are told by their names in upper or lower case: `buy` or
/// `b`, `sell` or `s`, and the names of the four exchanges. Any other text names
/// none.
pub proof fn law_names_tell_sides_and_exchanges(text: Seq<char>)
    ensures
        lower(text) == "buy"@ || lower(text) == "b"@ ==> side_named(text) == Some(TradeSide::Buy),
        lower(text) == "sell"@ || lower(text) == "s"@ ==> side_named(text) == Some(TradeSide::Sell),
        lower(text) != "buy"@ && lower(text) != "b"@ && lower(text) != "sell"@ && lower(text)
            != "s"@ ==> side_named(text) is None,
        lower(text) == "binance"@ ==> exchange_named(text) == Some(Exchange::Binance),
        lower(text) == "coinbase"@ ==> exchange_named(text) == Some(Exchange::Coinbase),
        lower(text) == "kraken"@ ==> exchange_named(text) == Some(Exchange::Kraken),
        lower(text) == "bitstamp"@ ==> exchange_named(text) == Some(Exchange::Bitstamp),
        lower(text) != "binance"@ && lower(text) != "coinbase"@ && lower(text) != "kraken"@
            && lower(text) != "bitstamp"@ ==> exchange_named(text) is None,
{
    reveal_strlit("buy");
    reveal_strlit("b");
    reveal_strlit("sell");
    reveal_strlit("s");
    assert("buy"@.len() == 3 && "b"@.len() == 1 && "sell"@.len() == 4 && "s"@.len() == 1);
    assert("b"@[0] == 'b' && "s"@[0] == 's');
    reveal_strlit("binance");
    reveal_strlit("coinbase");
    reveal_strlit("kraken");
    reveal_strlit("bitstamp");
    assert("binance"@.len() == 7 && "kraken"@.len() == 6);
    assert("bitstamp"@.len() == 8 && "coinbase"@.len() == 8);
    assert("bitstamp"@[0] == 'b' && "coinbase"@[0] == 'c');
}

} // verus!
