//! The trades of one bucket, and the tick that they make.

use vstd::prelude::*;

use crate::binary64::{
    law_patterns_tell_the_order, law_patterns_tell_what_a_number_is, Binary64,
};
use crate::text::lower;
use crate::training::trade::{
    exchange_at, exchange_slot, law_names_tell_sides_and_exchanges, side_named, slot_exchange,
    slot_of, Exchange, TradeRow, TradeSide,
};

verus! {

/// What a bucket keeps of a trade.
#[derive(Clone, Copy, Debug, PartialEq, Eq, Structural)]
pub struct BucketTrade {
    pub price: Binary64,
    pub quantity: Binary64,
    pub side: Option<TradeSide>,
    pub exchange: Exchange,
}

/// What a bucket keeps of a row of an exchange.
pub open spec fn kept_trade(row: TradeRow, exchange: Exchange) -> BucketTrade {
    BucketTrade {
        price: row.price,
        quantity: row.quantity,
        side: side_named(row.side@),
        exchange,
    }
}

/// The trades of a bucket, in the order they came.
pub struct BucketAccumulator {
    trades: Vec<BucketTrade>,
    has_side_info: bool,
    exch_price: [Binary64; 4],
    exch_seen: [bool; 4],
}

/// Whether any of the trades has a side.
pub open spec fn any_side(trades: Seq<BucketTrade>) -> bool {
    exists|i: int| 0 <= i < trades.len() && (#[trigger] trades[i]).side is Some
}

/// The price of an exchange's last trade, where it has one.
pub open spec fn last_price(trades: Seq<BucketTrade>, exchange: Exchange) -> Option<Binary64>
    decreases trades.len(),
{
    if trades.len() == 0 {
        None
    } else if trades.last().exchange == exchange {
        Some(trades.last().price)
    } else {
        last_price(trades.drop_last(), exchange)
    }
}

/// The last prices of the first exchanges that have one, in the order of their
/// places.
pub open spec fn prices_before(trades: Seq<BucketTrade>, slots: int) -> Seq<(Exchange, Binary64)>
    decreases slots,
{
    if slots <= 0 {
        Seq::empty()
    } else {
        let before = prices_before(trades, slots - 1);
        match last_price(trades, exchange_at(slots - 1)) {
            Some(p) => before.push((exchange_at(slots - 1), p)),
            None => before,
        }
    }
}

/// The last price of each exchange that has one, in the order of their places.
pub open spec fn exchange_prices(trades: Seq<BucketTrade>) -> Seq<(Exchange, Binary64)> {
    prices_before(trades, 4)
}

/// The pattern of the smallest finite number.
pub const LOWEST_BITS: u64 = 0xFFEF_FFFF_FFFF_FFFF;

/// The pattern of the largest finite number.
pub const HIGHEST_BITS: u64 = 0x7FEF_FFFF_FFFF_FFFF;

/// The highest of prices.
pub open spec fn highest(prices: Seq<(Exchange, Binary64)>) -> Binary64
    decreases prices.len(),
{
    if prices.len() == 0 {
        Binary64 { bits: LOWEST_BITS }
    } else {
        highest(prices.drop_last()).larger(prices.last().1)
    }
}

/// The lowest of prices.
pub open spec fn lowest(prices: Seq<(Exchange, Binary64)>) -> Binary64
    decreases prices.len(),
{
    if prices.len() == 0 {
        Binary64 { bits: HIGHEST_BITS }
    } else {
        lowest(prices.drop_last()).smaller(prices.last().1)
    }
}

/// What arithmetic makes of a bucket's trades, taken in order.
#[derive(Clone, Copy, Debug)]
pub struct BucketSums {
    /// The sum of the quantities.
    pub volume: Binary64,
    /// The sum of price times quantity.
    pub notional: Binary64,
    /// The notional divided by the volume.
    pub price: Binary64,
    /// The sum of the quantities of the trades that have a side.
    pub sided_volume: Binary64,
    /// The sum of the bought quantities, divided by the sided volume.
    pub buy_ratio: Binary64,
}

/// The tick that a bucket makes.
pub struct FusedTick {
    pub ts_micros: i64,
    pub price: Binary64,
    pub volume: Binary64,
    pub notional: Binary64,
    pub buy_ratio: Option<Binary64>,
    pub exchange_count: u8,
    pub tick_count: u32,
    pub exchange_prices: Vec<(Exchange, Binary64)>,
    /// The highest and the lowest of the exchanges' prices, where there are two
    /// or more.
    pub price_range: Option<(Binary64, Binary64)>,
}

/// Half of a width, towards zero.
pub open spec fn half(width: int) -> int {
    if width >= 0 {
        width / 2
    } else {
        -((-width) / 2)
    }
}

/// The instant in the middle of a bucket.
pub open spec fn bucket_middle(bucket_id: int, width: int) -> int {
    bucket_id * width + half(width)
}

/// Whether a bucket's start and middle are instants.
pub open spec fn bucket_fits(bucket_id: int, width: int) -> bool {
    &&& i64::MIN <= bucket_id * width <= i64::MAX
    &&& i64::MIN <= bucket_middle(bucket_id, width) <= i64::MAX
}

/// Whether a tick is the one that trades make.
pub open spec fn is_tick_of(
    tick: FusedTick,
    trades: Seq<BucketTrade>,
    bucket_id: int,
    width: int,
    sums: BucketSums,
) -> bool {
    let prices = exchange_prices(trades);
    &&& tick.ts_micros == bucket_middle(bucket_id, width)
    &&& tick.price == sums.price
    &&& tick.volume == sums.volume
    &&& tick.notional == sums.notional
    &&& tick.buy_ratio == (if any_side(trades) && sums.sided_volume.positive() {
        Some(sums.buy_ratio)
    } else {
        None
    })
    &&& tick.exchange_count == (if prices.len() == 0 {
        1
    } else {
        prices.len() as int
    })
    &&& tick.tick_count == trades.len()
    &&& tick.exchange_prices@ == prices
    &&& tick.price_range == (if prices.len() >= 2 {
        Some((highest(prices), lowest(prices)))
    } else {
        None
    })
}

impl View for BucketAccumulator {
    type V = Seq<BucketTrade>;

    closed spec fn view(&self) -> Seq<BucketTrade> {
        self.trades@
    }
}

impl BucketAccumulator {
    /// Whether what is kept beside the trades agrees with them.
    pub closed spec fn wf(self) -> bool {
        &&& self.trades@.len() <= u32::MAX
        &&& self.has_side_info == any_side(self.trades@)
        &&& forall|s: int|
            0 <= s < 4 ==> last_price(self.trades@, #[trigger] exchange_at(s)) == (
            if self.exch_seen[s] {
                Some(self.exch_price[s])
            } else {
                None
            })
    }

    /// A bucket without trades.
    pub fn empty() -> (acc: Self)
        ensures
            acc.wf(),
            acc@ == Seq::<BucketTrade>::empty(),
    {
        let zero = Binary64 { bits: 0 };
        BucketAccumulator {
            trades: Vec::new(),
            has_side_info: false,
            exch_price: [zero, zero, zero, zero],
            exch_seen: [false, false, false, false],
        }
    }

    /// The trades of the bucket.
    pub fn trades(&self) -> (trades: &Vec<BucketTrade>)
        ensures
            trades@ == self@,
    {
        &self.trades
    }

    /// Adds a trade of an exchange.
    pub fn add(&mut self, row: &TradeRow, exchange: Exchange)
        requires
            old(self).wf(),
            old(self)@.len() < u32::MAX,
        ensures
            final(self).wf(),
            final(self)@ == old(self)@.push(kept_trade(*row, exchange)),
    {
        let side = row.parse_side();
        let trade = BucketTrade { price: row.price, quantity: row.quantity, side, exchange };
        let slot: usize = exchange_slot(exchange);
        let ghost before = self.trades@;
        self.trades.push(trade);
        self.exch_price[slot] = row.price;
        self.exch_seen[slot] = true;
        match side {
            Some(_) => {
                self.has_side_info = true;
            },
            None => {},
        }
        proof {
            let after = self.trades@;
            assert(after.drop_last() =~= before);
            assert(after.last() == trade);
            assert(any_side(after) == (any_side(before) || side is Some)) by {
                if any_side(before) {
                    let i = choose|i: int| 0 <= i < before.len() && (#[trigger] before[i]).side is Some;
                    assert(after[i].side is Some);
                }
                if side is Some {
                    assert(after[before.len() as int].side is Some);
                }
                if any_side(after) && side is None {
                    let i = choose|i: int| 0 <= i < after.len() && (#[trigger] after[i]).side is Some;
                    assert(before[i].side is Some);
                }
            }
            assert(exchange_at(slot_of(exchange)) == exchange);
        }
    }

    /// Makes the bucket's tick. A bucket without positive volume makes none.
    pub fn flush(&self, bucket_id: i64, width_micros: i64, sums: BucketSums) -> (tick: Option<
        FusedTick,
    >)
        requires
            self.wf(),
            bucket_fits(bucket_id as int, width_micros as int),
        ensures
            match tick {
                Some(t) => !sums.volume.at_most_zero() && is_tick_of(
                    t,
                    self@,
                    bucket_id as int,
                    width_micros as int,
                    sums,
                ),
                None => sums.volume.at_most_zero(),
            },
    {
        if sums.volume.is_at_most_zero() {
            return None;
        }
        let buy_ratio = if self.has_side_info && sums.sided_volume.is_positive() {
            Some(sums.buy_ratio)
        } else {
            None
        };
        let mut prices: Vec<(Exchange, Binary64)> = Vec::new();
        let mut hi = Binary64 { bits: LOWEST_BITS };
        let mut lo = Binary64 { bits: HIGHEST_BITS };
        for slot in 0usize..4
            invariant
                self.wf(),
                prices@ == prices_before(self.trades@, slot as int),
                prices@.len() <= slot,
                hi == highest(prices@),
                lo == lowest(prices@),
        {
            let ghost before = prices@;
            assert(last_price(self.trades@, exchange_at(slot as int)) == (
            if self.exch_seen[slot as int] {
                Some(self.exch_price[slot as int])
            } else {
                None
            }));
            if self.exch_seen[slot] {
                let p = self.exch_price[slot];
                prices.push((slot_exchange(slot), p));
                hi = hi.max_of(p);
                lo = lo.min_of(p);
                assert(prices@.drop_last() =~= before);
            }
        }
        let count: usize = prices.len();
        let price_range = if count >= 2 {
            Some((hi, lo))
        } else {
            None
        };
        let start: i64 = bucket_id * width_micros;
        Some(
            FusedTick {
                ts_micros: start + width_micros / 2,
                price: sums.price,
                volume: sums.volume,
                notional: sums.notional,
                buy_ratio,
                exchange_count: if count == 0 {
                    1
                } else {
                    count as u8
                },
                tick_count: self.trades.len() as u32,
                exchange_prices: prices,
                price_range,
            },
        )
    }
}

/// The range of prices spans them all: none lies above the highest or below the
/// lowest.
pub proof fn law_the_range_spans_all_prices(prices: Seq<(Exchange, Binary64)>)
    ensures
        !highest(prices).is_nan(),
        !lowest(prices).is_nan(),
        forall|i: int|
            0 <= i < prices.len() ==> {
                let p = #[trigger] prices[i];
                !highest(prices).below(p.1) && !p.1.below(lowest(prices))
            },
    decreases prices.len(),
{
    if prices.len() > 0 {
        let head = prices.drop_last();
        law_the_range_spans_all_prices(head);
        assert forall|i: int| 0 <= i < prices.len() implies {
            let p = #[trigger] prices[i];
            !highest(prices).below(p.1) && !p.1.below(lowest(prices))
        } by {
            if i < head.len() {
                assert(head[i] == prices[i]);
            }
        }
    }
}

/// The ticks of later buckets come later.
pub proof fn law_ticks_follow_their_buckets(a: int, b: int, width: int)
    requires
        width > 0,
        a < b,
    ensures
        bucket_middle(a, width) < bucket_middle(b, width),
{
    assert(a * width < b * width) by (nonlinear_arith)
        requires
            width > 0,
            a < b,
    ;
}

/// A bucket keeps the price and the quantity of a row as they are, its side where
/// it has one, and its exchange.
pub proof fn law_a_bucket_keeps_trades_as_they_are(row: TradeRow, exchange: Exchange)
    ensures
        kept_trade(row, exchange).price == row.price,
        kept_trade(row, exchange).quantity == row.quantity,
        kept_trade(row, exchange).exchange == exchange,
        lower(row.side@) == "buy"@ || lower(row.side@) == "b"@ ==> kept_trade(row, exchange).side
            == Some(TradeSide::Buy),
        lower(row.side@) == "sell"@ || lower(row.side@) == "s"@ ==> kept_trade(row, exchange).side
            == Some(TradeSide::Sell),
        lower(row.side@) != "buy"@ && lower(row.side@) != "b"@ && lower(row.side@) != "sell"@
            && lower(row.side@) != "s"@ ==> kept_trade(row, exchange).side is None,
{
    law_names_tell_sides_and_exchanges(row.side@);
}

/// The price of an exchange in a bucket is that of its last trade there: of any of
/// its trades that none of its own follows. Without trades it has none.
pub proof fn law_the_last_trade_tells_the_price(
    trades: Seq<BucketTrade>,
    exchange: Exchange,
    k: int,
)
    requires
        -1 <= k < trades.len(),
        forall|i: int| k < i < trades.len() ==> (#[trigger] trades[i]).exchange != exchange,
    ensures
        k >= 0 && trades[k].exchange == exchange ==> last_price(trades, exchange) == Some(
            trades[k].price,
        ),
        k == -1 ==> last_price(trades, exchange) is None,
    decreases trades.len(),
{
    if trades.len() > 0 {
        let head = trades.drop_last();
        if k < trades.len() - 1 {
            assert(trades[trades.len() - 1].exchange != exchange);
            assert forall|i: int| k < i < head.len() implies (#[trigger] head[i]).exchange
                != exchange by {
                assert(head[i] == trades[i]);
            }
            law_the_last_trade_tells_the_price(head, exchange, k);
        }
    }
}

/// The prices of a bucket are one for each exchange that traded in it, the price
/// of its last trade, in the order Binance, Coinbase, Kraken, Bitstamp.
pub proof fn law_each_exchange_has_one_price(trades: Seq<BucketTrade>)
    ensures
        ({
            let one = |e: Exchange|
                match last_price(trades, e) {
                    Some(p) => seq![(e, p)],
                    None => Seq::<(Exchange, Binary64)>::empty(),
                };
            exchange_prices(trades) == one(Exchange::Binance) + one(Exchange::Coinbase) + one(
                Exchange::Kraken,
            ) + one(Exchange::Bitstamp)
        }),
{
    reveal_with_fuel(prices_before, 5);
    let one = |e: Exchange|
        match last_price(trades, e) {
            Some(p) => seq![(e, p)],
            None => Seq::<(Exchange, Binary64)>::empty(),
        };
    assert(prices_before(trades, 0) =~= Seq::<(Exchange, Binary64)>::empty());
    assert(prices_before(trades, 1) =~= one(Exchange::Binance));
    assert(prices_before(trades, 2) =~= one(Exchange::Binance) + one(Exchange::Coinbase));
    assert(prices_before(trades, 3) =~= one(Exchange::Binance) + one(Exchange::Coinbase) + one(
        Exchange::Kraken,
    ));
    assert(prices_before(trades, 4) =~= one(Exchange::Binance) + one(Exchange::Coinbase) + one(
        Exchange::Kraken,
    ) + one(Exchange::Bitstamp));
}

/// Among finite prices the ends of their range are prices that are there.
pub proof fn law_the_range_ends_at_prices(prices: Seq<(Exchange, Binary64)>)
    requires
        prices.len() > 0,
        forall|i: int|
            0 <= i < prices.len() ==> 0 < (#[trigger] prices[i]).1.bits < 0x7FF0_0000_0000_0000,
    ensures
        exists|i: int| 0 <= i < prices.len() && (#[trigger] prices[i]).1 == highest(prices),
        exists|i: int| 0 <= i < prices.len() && (#[trigger] prices[i]).1 == lowest(prices),
    decreases prices.len(),
{
    let head = prices.drop_last();
    let last = prices.len() - 1;
    let p = prices[last].1;
    let (floor, top) = (Binary64 { bits: LOWEST_BITS }, Binary64 { bits: HIGHEST_BITS });
    law_patterns_tell_the_order(floor, p);
    law_patterns_tell_the_order(p, top);
    law_patterns_tell_the_order(top, p);
    law_patterns_tell_what_a_number_is(p);
    law_patterns_tell_what_a_number_is(top);
    law_patterns_tell_what_a_number_is(floor);
    if head.len() == 0 {
        assert(highest(head) == floor);
        assert(lowest(head) == top);
        if lowest(prices) != p {
            assert(p.bits == HIGHEST_BITS);
        }
        assert(prices[last].1 == highest(prices));
        assert(prices[last].1 == lowest(prices));
    } else {
        assert forall|i: int| 0 <= i < head.len() implies 0 < (#[trigger] head[i]).1.bits
            < 0x7FF0_0000_0000_0000 by {
            assert(head[i] == prices[i]);
        }
        law_the_range_ends_at_prices(head);
        let h = choose|i: int| 0 <= i < head.len() && (#[trigger] head[i]).1 == highest(head);
        let l = choose|i: int| 0 <= i < head.len() && (#[trigger] head[i]).1 == lowest(head);
        assert(prices[h] == head[h] && prices[l] == head[l]);
        assert(prices[last].1 == p);
    }
}

/// The tick of a bucket stands in the middle of its span. It has the sums of the
/// bucket as they are, the number of its trades, the number and the prices of its
/// exchanges, the share of bought volume where some trade has a side and the sided
/// volume is positive, and a range of prices where two exchanges or more have one.
pub proof fn law_a_tick_says_what_its_bucket_holds(
    tick: FusedTick,
    trades: Seq<BucketTrade>,
    bucket_id: int,
    width: int,
    sums: BucketSums,
)
    requires
        is_tick_of(tick, trades, bucket_id, width, sums),
        width > 0,
    ensures
        2 * (tick.ts_micros - bucket_id * width) <= width < 2 * (tick.ts_micros - bucket_id * width)
            + 2,
        tick.price == sums.price,
        tick.volume == sums.volume,
        tick.notional == sums.notional,
        tick.tick_count == trades.len(),
        ({
            let sided = exists|i: int| 0 <= i < trades.len() && (#[trigger] trades[i]).side is Some;
            let positive = 0 < sums.sided_volume.bits <= 0x7FF0_0000_0000_0000;
            &&& sided && positive ==> tick.buy_ratio == Some(sums.buy_ratio)
            &&& !(sided && positive) ==> tick.buy_ratio is None
        }),
        tick.exchange_prices@ == exchange_prices(trades),
        trades.len() > 0 ==> tick.exchange_count == tick.exchange_prices@.len(),
        tick.exchange_count >= 1,
        tick.exchange_prices@.len() < 2 ==> tick.price_range is None,
        tick.exchange_prices@.len() >= 2 ==> tick.price_range == Some(
            (highest(tick.exchange_prices@), lowest(tick.exchange_prices@)),
        ),
{
    law_patterns_tell_what_a_number_is(sums.sided_volume);
    if trades.len() > 0 {
        let e = trades.last().exchange;
        law_the_last_trade_tells_the_price(trades, e, trades.len() - 1);
        law_each_exchange_has_one_price(trades);
        assert(exchange_prices(trades).len() > 0);
    }
}

} // verus!
