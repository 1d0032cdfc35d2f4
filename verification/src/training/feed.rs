//! Trades in the order of time, gathered into buckets.

use vstd::prelude::*;

use crate::text::lower;
use crate::training::bucket::{bucket_middle, kept_trade, BucketAccumulator, BucketTrade};
use crate::training::trade::{exchange_named, TradeRow};

verus! {

/// Why a trade cannot be taken in.
#[derive(Debug)]
pub enum FeedError {
    /// The trade lies before the one ahead of it.
    NotSorted { row: u64, ts_micros: i64, prev: i64 },
    /// The trade's exchange is not known; this is its name in lower case.
    UnknownExchange(String),
}

/// A bucket that no further trade falls into.
pub struct ClosedBucket {
    pub bucket_id: i64,
    pub acc: BucketAccumulator,
}

/// The bucket that is being filled.
pub struct BucketFeed {
    acc: BucketAccumulator,
    current_bucket: Option<i64>,
    last_ts: Option<i64>,
    bucket_width_micros: i64,
    row_count: u64,
}

/// The state of a feed: the bucket being filled and its trades, the time of the
/// last trade, the width of a bucket, and the trades seen.
pub struct FeedModel {
    pub trades: Seq<BucketTrade>,
    pub current: Option<int>,
    pub last_ts: Option<i64>,
    pub width: int,
    pub row_count: int,
}

impl View for BucketFeed {
    type V = FeedModel;

    closed spec fn view(&self) -> FeedModel {
        FeedModel {
            trades: self.acc@,
            current: match self.current_bucket {
                Some(c) => Some(c as int),
                None => None,
            },
            last_ts: self.last_ts,
            width: self.bucket_width_micros as int,
            row_count: self.row_count as int,
        }
    }
}

/// The bucket that an instant falls into.
pub open spec fn bucket_of(ts: int, width: int) -> int {
    ts / width
}

impl FeedModel {
    /// Whether a trade lies before the one ahead of it.
    pub open spec fn goes_back(self, ts: i64) -> bool {
        self.last_ts matches Some(prev) && ts < prev
    }

    /// Whether an instant falls behind the bucket being filled, which is then
    /// closed.
    pub open spec fn closes_at(self, ts: int) -> bool {
        self.current matches Some(c) && bucket_of(ts, self.width) > c
    }

    /// The state behind a trade that has been counted and found in order.
    pub open spec fn passed(self, ts: i64) -> FeedModel {
        FeedModel { last_ts: Some(ts), row_count: self.row_count + 1, ..self }
    }

    /// The state behind a trade.
    pub open spec fn take(self, ts: i64, trade: BucketTrade) -> FeedModel {
        FeedModel {
            trades: if self.closes_at(ts as int) {
                seq![trade]
            } else {
                self.trades.push(trade)
            },
            current: Some(bucket_of(ts as int, self.width)),
            ..self.passed(ts)
        }
    }
}

/// Dividing a 64-bit number leaves one of 64 bits, but for one pair.
proof fn lemma_bucket_fits(a: int, b: int)
    requires
        i64::MIN <= a <= i64::MAX,
        i64::MIN <= b <= i64::MAX,
        b != 0,
        !(a == i64::MIN && b == -1),
    ensures
        i64::MIN <= a / b <= i64::MAX,
{
    if b == -1 {
        assert(a / b == -a) by (nonlinear_arith)
            requires
                b == -1,
        ;
    } else if b == 1 {
    } else {
        let m: int = 0x8000_0000_0000_0000;
        assert(-m <= a / b < m) by (nonlinear_arith)
            requires
                -m <= a < m,
                b >= 2 || b <= -2,
                m >= 2,
        ;
    }
}

impl BucketFeed {
    /// Whether the bucket being filled is in order, and buckets have a width.
    pub closed spec fn wf(self) -> bool {
        self.acc.wf() && self.bucket_width_micros != 0
    }

    /// A feed that has seen nothing.
    pub fn new(bucket_width_micros: i64) -> (f: Self)
        requires
            bucket_width_micros != 0,
        ensures
            f.wf(),
            f@ == fresh_feed(bucket_width_micros as int),
    {
        BucketFeed {
            acc: BucketAccumulator::empty(),
            current_bucket: None,
            last_ts: None,
            bucket_width_micros,
            row_count: 0,
        }
    }

    /// Trades seen so far.
    pub fn row_count(&self) -> (n: u64)
        ensures
            n == self@.row_count,
    {
        self.row_count
    }

    /// Trades in the bucket being filled.
    pub fn open_trades(&self) -> (n: usize)
        ensures
            n == self@.trades.len(),
    {
        self.acc.trades().len()
    }

    /// Takes a trade in. Where it falls behind the bucket being filled, that
    /// bucket is closed and handed out. Buckets without trades are passed over.
    pub fn process_row(&mut self, row: &TradeRow) -> (r: Result<Option<ClosedBucket>, FeedError>)
        requires
            old(self).wf(),
            old(self)@.row_count < u64::MAX,
            old(self)@.trades.len() < u32::MAX,
            !(row.ts_micros == i64::MIN && old(self)@.width == -1),
        ensures
            final(self).wf(),
            if old(self)@.goes_back(row.ts_micros) {
                &&& r matches Err(FeedError::NotSorted { row: n, ts_micros, prev }) && n
                    == old(self)@.row_count + 1 && ts_micros == row.ts_micros && Some(prev)
                    == old(self)@.last_ts
                &&& final(self)@ == (FeedModel {
                    row_count: old(self)@.row_count + 1,
                    ..old(self)@
                })
            } else {
                match exchange_named(row.exchange@) {
                    None => {
                        &&& r matches Err(FeedError::UnknownExchange(name)) && name@ == lower(
                            row.exchange@,
                        )
                        &&& final(self)@ == old(self)@.passed(row.ts_micros)
                    },
                    Some(exchange) => {
                        &&& final(self)@ == old(self)@.take(
                            row.ts_micros,
                            kept_trade(*row, exchange),
                        )
                        &&& r matches Ok(closed) && match closed {
                            Some(b) => {
                                &&& old(self)@.closes_at(row.ts_micros as int)
                                &&& Some(b.bucket_id as int) == old(self)@.current
                                &&& b.acc.wf()
                                &&& b.acc@ == old(self)@.trades
                            },
                            None => !old(self)@.closes_at(row.ts_micros as int),
                        }
                    },
                }
            },
    {
        self.row_count = self.row_count + 1;
        match self.last_ts {
            Some(prev) => if row.ts_micros < prev {
                return Err(
                    FeedError::NotSorted { row: self.row_count, ts_micros: row.ts_micros, prev },
                );
            },
            None => {},
        }
        self.last_ts = Some(row.ts_micros);
        let exchange = match row.parse_exchange() {
            Ok(e) => e,
            Err(name) => return Err(FeedError::UnknownExchange(name)),
        };
        proof {
            lemma_bucket_fits(row.ts_micros as int, self.bucket_width_micros as int);
        }
        let bucket_id: i64 = row.ts_micros.checked_div_euclid(self.bucket_width_micros).unwrap();
        let mut closed: Option<ClosedBucket> = None;
        match self.current_bucket {
            Some(cur) => if bucket_id > cur {
                let mut acc = BucketAccumulator::empty();
                std::mem::swap(&mut acc, &mut self.acc);
                closed = Some(ClosedBucket { bucket_id: cur, acc });
            },
            None => {},
        }
        self.current_bucket = Some(bucket_id);
        let ghost before = self.acc@;
        self.acc.add(row, exchange);
        assert(Seq::<BucketTrade>::empty().push(kept_trade(*row, exchange)) =~= seq![
            kept_trade(*row, exchange),
        ]);
        Ok(closed)
    }

    /// Closes the bucket being filled, where there is one.
    pub fn close_last(&mut self) -> (closed: Option<ClosedBucket>)
        requires
            old(self).wf(),
        ensures
            final(self).wf(),
            final(self)@ == (if old(self)@.current is None {
                old(self)@
            } else {
                FeedModel { trades: Seq::empty(), current: None, ..old(self)@ }
            }),
            match closed {
                Some(b) => {
                    &&& Some(b.bucket_id as int) == old(self)@.current
                    &&& b.acc.wf()
                    &&& b.acc@ == old(self)@.trades
                },
                None => old(self)@.current is None,
            },
    {
        match self.current_bucket {
            Some(cur) => {
                let mut acc = BucketAccumulator::empty();
                std::mem::swap(&mut acc, &mut self.acc);
                self.current_bucket = None;
                Some(ClosedBucket { bucket_id: cur, acc })
            },
            None => None,
        }
    }
}

// ── What becomes of a stream of trades ──────────────────────────────────────

/// A trade of a known exchange and its time.
pub struct TimedTrade {
    pub ts: i64,
    pub trade: BucketTrade,
}

/// A closed bucket and its trades.
pub struct BucketModel {
    pub id: int,
    pub trades: Seq<BucketTrade>,
}

/// The state behind a stream of trades, and the buckets closed on the way.
pub open spec fn fed(start: FeedModel, stream: Seq<TimedTrade>) -> (FeedModel, Seq<BucketModel>)
    decreases stream.len(),
{
    if stream.len() == 0 {
        (start, Seq::empty())
    } else {
        let (feed, closed) = fed(start, stream.drop_last());
        let t = stream.last();
        (
            feed.take(t.ts, t.trade),
            if feed.closes_at(t.ts as int) {
                closed.push(BucketModel { id: feed.current->0, trades: feed.trades })
            } else {
                closed
            },
        )
    }
}

/// Whether a stream goes on in the order of time.
pub open spec fn stream_ascends(stream: Seq<TimedTrade>) -> bool {
    forall|i: int, j: int|
        0 <= i <= j < stream.len() ==> (#[trigger] stream[i]).ts <= (#[trigger] stream[j]).ts
}

/// The trades of a stream that fall into a bucket, in order.
pub open spec fn trades_in(stream: Seq<TimedTrade>, width: int, id: int) -> Seq<BucketTrade>
    decreases stream.len(),
{
    if stream.len() == 0 {
        Seq::empty()
    } else {
        let before = trades_in(stream.drop_last(), width, id);
        if bucket_of(stream.last().ts as int, width) == id {
            before.push(stream.last().trade)
        } else {
            before
        }
    }
}

/// Whether an instant's bucket is among the closed ones.
pub open spec fn is_closed(closed: Seq<BucketModel>, id: int) -> bool {
    exists|i: int| 0 <= i < closed.len() && (#[trigger] closed[i]).id == id
}

/// The state in which a stream of trades starts.
pub open spec fn fresh_feed(width: int) -> FeedModel {
    FeedModel { trades: Seq::empty(), current: None, last_ts: None, width, row_count: 0 }
}

/// The buckets that a stream of trades makes, the last one closed at its end.
pub open spec fn all_buckets(width: int, stream: Seq<TimedTrade>) -> Seq<BucketModel> {
    let (feed, closed) = fed(fresh_feed(width), stream);
    match feed.current {
        Some(id) => closed.push(BucketModel { id, trades: feed.trades }),
        None => closed,
    }
}

/// Buckets divide a stream of trades up: each closed bucket holds exactly the
/// trades of the stream that fall into it, in their order; so does the bucket
/// being filled; the buckets are closed in the order of time; and every trade
/// is in one of them.
pub proof fn law_buckets_divide_the_stream(width: int, stream: Seq<TimedTrade>)
    requires
        width > 0,
        stream_ascends(stream),
    ensures
        ({
            let start = fresh_feed(width);
            let (feed, closed) = fed(start, stream);
            &&& feed.width == width
            &&& stream.len() == 0 ==> feed == start && closed.len() == 0
            &&& stream.len() > 0 ==> {
                &&& feed.current == Some(bucket_of(stream.last().ts as int, width))
                &&& feed.trades.len() > 0
                &&& feed.trades == trades_in(stream, width, feed.current->0)
            }
            &&& forall|i: int|
                0 <= i < closed.len() ==> {
                    &&& (#[trigger] closed[i]).trades == trades_in(stream, width, closed[i].id)
                    &&& closed[i].trades.len() > 0
                    &&& closed[i].id < feed.current->0
                }
            &&& forall|i: int, j: int|
                0 <= i < j < closed.len() ==> (#[trigger] closed[i]).id < (#[trigger] closed[j]).id
            &&& forall|k: int|
                0 <= k < stream.len() ==> {
                    let id = bucket_of((#[trigger] stream[k]).ts as int, width);
                    feed.current == Some(id) || is_closed(closed, id)
                }
        }),
    decreases stream.len(),
{
    let start = fresh_feed(width);
    if stream.len() > 0 {
        let head = stream.drop_last();
        let t = stream.last();
        let n = stream.len() - 1;
        assert forall|i: int| 0 <= i < head.len() implies #[trigger] head[i] == stream[i] by {}
        assert(stream_ascends(head));
        law_buckets_divide_the_stream(width, head);
        let (before, earlier) = fed(start, head);
        let (feed, closed) = fed(start, stream);
        let id = bucket_of(t.ts as int, width);
        if head.len() > 0 {
            let prev = head.last();
            assert(prev == stream[n - 1]);
            assert(prev.ts <= t.ts);
            lemma_buckets_ascend(prev.ts as int, t.ts as int, width);
            if before.closes_at(t.ts as int) {
                lemma_nothing_in_later_bucket(head, width, id);
                assert(feed.trades =~= trades_in(stream, width, id));
                assert(closed.last().id == before.current->0);
                assert(closed[closed.len() - 1].id == before.current->0);
            } else {
                assert(closed == earlier);
            }
            assert forall|i: int| 0 <= i < closed.len() implies {
                &&& (#[trigger] closed[i]).trades == trades_in(stream, width, closed[i].id)
                &&& closed[i].trades.len() > 0
                &&& closed[i].id < feed.current->0
            } by {
                if i < earlier.len() {
                    assert(closed[i] == earlier[i]);
                }
            }
            assert forall|k: int| 0 <= k < stream.len() implies {
                let b = bucket_of((#[trigger] stream[k]).ts as int, width);
                feed.current == Some(b) || is_closed(closed, b)
            } by {
                let b = bucket_of(stream[k].ts as int, width);
                if k < n {
                    assert(head[k] == stream[k]);
                    if is_closed(earlier, b) {
                        let i = choose|i: int|
                            0 <= i < earlier.len() && (#[trigger] earlier[i]).id == b;
                        assert(closed[i].id == b);
                    }
                }
            }
        } else {
            assert(before == start);
            assert(!before.closes_at(t.ts as int));
            assert(trades_in(head, width, id) == Seq::<BucketTrade>::empty());
            assert(feed.trades =~= trades_in(stream, width, id));
        }
    }
}

proof fn lemma_buckets_ascend(a: int, b: int, width: int)
    by (nonlinear_arith)
    requires
        width > 0,
        a <= b,
    ensures
        a / width <= b / width,
{
}

/// No trade of a stream falls into a bucket behind its last one's.
proof fn lemma_nothing_in_later_bucket(stream: Seq<TimedTrade>, width: int, id: int)
    requires
        width > 0,
        stream_ascends(stream),
        stream.len() > 0 ==> bucket_of(stream.last().ts as int, width) < id,
    ensures
        trades_in(stream, width, id) == Seq::<BucketTrade>::empty(),
    decreases stream.len(),
{
    if stream.len() > 0 {
        let head = stream.drop_last();
        assert forall|i: int| 0 <= i < head.len() implies #[trigger] head[i] == stream[i] by {}
        assert(stream_ascends(head));
        if head.len() > 0 {
            assert(head.last() == stream[stream.len() - 2]);
            lemma_buckets_ascend(head.last().ts as int, stream.last().ts as int, width);
        }
        lemma_nothing_in_later_bucket(head, width, id);
    }
}

// ── Spans ───────────────────────────────────────────────────────────────────

/// A bucket spans the instants from its number times the width up to, but not
/// with, the next number times the width, and an instant falls into one bucket
/// only.
pub proof fn law_buckets_span_their_width(ts: int, width: int, id: int)
    requires
        width > 0,
    ensures
        bucket_of(ts, width) == id <==> id * width <= ts < (id + 1) * width,
{
    let q = bucket_of(ts, width);
    assert(q * width <= ts < (q + 1) * width) by (nonlinear_arith)
        requires
            q == ts / width,
            width > 0,
    ;
    assert(id * width <= ts < (id + 1) * width && q * width <= ts < (q + 1) * width ==> id == q)
        by (nonlinear_arith)
        requires
            width > 0,
    ;
}

/// A trade closes the bucket being filled exactly where that bucket's span is over
/// at its time. It then stands alone in the bucket of its own span, and otherwise
/// behind the trades of the bucket being filled.
pub proof fn law_a_bucket_closes_when_its_span_is_over(
    feed: FeedModel,
    ts: i64,
    trade: BucketTrade,
)
    requires
        feed.width > 0,
    ensures
        ({
            let after = feed.take(ts, trade);
            &&& feed.current is None ==> !feed.closes_at(ts as int)
            &&& feed.current matches Some(c) ==> (feed.closes_at(ts as int) <==> (c + 1)
                * feed.width <= ts)
            &&& after.current matches Some(id) && id * feed.width <= ts < (id + 1) * feed.width
            &&& feed.closes_at(ts as int) ==> after.trades == seq![trade]
            &&& !feed.closes_at(ts as int) ==> after.trades == feed.trades.push(trade)
            &&& after.last_ts == Some(ts)
            &&& after.row_count == feed.row_count + 1
            &&& after.width == feed.width
            &&& feed.goes_back(ts) <==> (feed.last_ts is Some && ts < feed.last_ts->0)
            &&& feed.passed(ts).trades == feed.trades && feed.passed(ts).current == feed.current
            &&& feed.passed(ts).last_ts == Some(ts)
            &&& feed.passed(ts).row_count == feed.row_count + 1
        }),
{
    let width = feed.width;
    let q = bucket_of(ts as int, width);
    law_buckets_span_their_width(ts as int, width, q);
    if let Some(c) = feed.current {
        assert(q > c <==> (c + 1) * width <= ts) by (nonlinear_arith)
            requires
                q * width <= ts < (q + 1) * width,
                width > 0,
        ;
    }
}

/// Which trade of the stream each trade of a bucket is.
proof fn lemma_places_in_bucket(stream: Seq<TimedTrade>, width: int, id: int) -> (at: Seq<int>)
    ensures
        ({
            let trades = trades_in(stream, width, id);
            &&& at.len() == trades.len()
            &&& forall|i: int, j: int| 0 <= i < j < at.len() ==> #[trigger] at[i] < #[trigger] at[j]
            &&& forall|i: int|
                0 <= i < at.len() ==> {
                    let k = #[trigger] at[i];
                    0 <= k < stream.len() && bucket_of(stream[k].ts as int, width) == id
                        && trades[i] == stream[k].trade
                }
            &&& forall|k: int|
                0 <= k < stream.len() && bucket_of(stream[k].ts as int, width) == id
                    ==> #[trigger] at.contains(k)
        }),
    decreases stream.len(),
{
    if stream.len() == 0 {
        Seq::empty()
    } else {
        let last = stream.len() - 1;
        let head = stream.drop_last();
        let before = lemma_places_in_bucket(head, width, id);
        let earlier = trades_in(head, width, id);
        let trades = trades_in(stream, width, id);
        let at = if trades.len() > earlier.len() {
            before.push(last)
        } else {
            before
        };
        assert forall|i: int| 0 <= i < at.len() implies {
            let k = #[trigger] at[i];
            0 <= k < stream.len() && bucket_of(stream[k].ts as int, width) == id && trades[i]
                == stream[k].trade
        } by {
            if i < before.len() {
                assert(at[i] == before[i]);
                assert(trades[i] == earlier[i]);
            }
        }
        assert forall|i: int, j: int| 0 <= i < j < at.len() implies #[trigger] at[i]
            < #[trigger] at[j] by {
            assert(at[i] == before[i]);
            if j < before.len() {
                assert(at[j] == before[j]);
            }
        }
        assert forall|k: int|
            0 <= k < stream.len() && bucket_of(stream[k].ts as int, width)
                == id implies #[trigger] at.contains(k) by {
            if k < last {
                assert(head[k] == stream[k]);
                assert(before.contains(k));
                let i = choose|i: int| 0 <= i < before.len() && before[i] == k;
                assert(at[i] == k);
            } else {
                assert(at[at.len() - 1] == k);
            }
        }
        at
    }
}

/// Every trade of a bucket lies in the bucket's span, so that the middle of the
/// span, where the bucket's tick stands, is less than a width away from it. The
/// trades of a bucket are those of the stream in its span, all of them and in
/// their order.
pub proof fn law_trades_lie_in_the_span_of_their_bucket(
    width: int,
    stream: Seq<TimedTrade>,
    b: int,
) -> (at: Seq<int>)
    requires
        width > 0,
        stream_ascends(stream),
        0 <= b < all_buckets(width, stream).len(),
    ensures
        ({
            let bucket = all_buckets(width, stream)[b];
            let middle = bucket_middle(bucket.id, width);
            &&& at.len() == bucket.trades.len()
            &&& at.len() > 0
            &&& forall|i: int, j: int| 0 <= i < j < at.len() ==> #[trigger] at[i] < #[trigger] at[j]
            &&& forall|i: int|
                0 <= i < at.len() ==> {
                    let k = #[trigger] at[i];
                    &&& 0 <= k < stream.len()
                    &&& bucket.trades[i] == stream[k].trade
                    &&& bucket.id * width <= stream[k].ts < (bucket.id + 1) * width
                    &&& -width < middle - stream[k].ts < width
                }
            &&& forall|k: int|
                0 <= k < stream.len() && bucket.id * width <= stream[k].ts < (bucket.id + 1) * width
                    ==> #[trigger] at.contains(k)
        }),
{
    law_buckets_divide_the_stream(width, stream);
    let (feed, closed) = fed(fresh_feed(width), stream);
    let bucket = all_buckets(width, stream)[b];
    let id = bucket.id;
    if b < closed.len() {
        assert(bucket == closed[b]);
    }
    assert(bucket.trades == trades_in(stream, width, id));
    let at = lemma_places_in_bucket(stream, width, id);
    assert((id + 1) * width == id * width + width) by (nonlinear_arith);
    assert forall|i: int| 0 <= i < at.len() implies {
        let k = #[trigger] at[i];
        &&& 0 <= k < stream.len()
        &&& bucket.trades[i] == stream[k].trade
        &&& id * width <= stream[k].ts < (id + 1) * width
        &&& -width < bucket_middle(id, width) - stream[k].ts < width
    } by {
        let k = at[i];
        law_buckets_span_their_width(stream[k].ts as int, width, id);
    }
    assert forall|k: int|
        0 <= k < stream.len() && id * width <= stream[k].ts < (id + 1)
            * width implies #[trigger] at.contains(k) by {
        law_buckets_span_their_width(stream[k].ts as int, width, id);
    }
    at
}

/// Every trade of a stream falls into one of its buckets, and the buckets stand in
/// the order of their spans, each once.
pub proof fn law_every_trade_falls_into_one_bucket(width: int, stream: Seq<TimedTrade>, k: int) -> (b:
    int)
    requires
        width > 0,
        stream_ascends(stream),
        0 <= k < stream.len(),
    ensures
        ({
            let buckets = all_buckets(width, stream);
            &&& 0 <= b < buckets.len()
            &&& buckets[b].id * width <= stream[k].ts < (buckets[b].id + 1) * width
            &&& buckets[b].trades.contains(stream[k].trade)
            &&& forall|i: int, j: int|
                0 <= i < j < buckets.len() ==> (#[trigger] buckets[i]).id < (
                #[trigger] buckets[j]).id
        }),
{
    law_buckets_divide_the_stream(width, stream);
    let (feed, closed) = fed(fresh_feed(width), stream);
    let buckets = all_buckets(width, stream);
    let id = bucket_of(stream[k].ts as int, width);
    assert forall|i: int, j: int| 0 <= i < j < buckets.len() implies (#[trigger] buckets[i]).id < (
    #[trigger] buckets[j]).id by {
        assert(buckets[i] == closed[i]);
        if j < closed.len() {
            assert(buckets[j] == closed[j]);
        }
    }
    let b = if feed.current == Some(id) {
        closed.len() as int
    } else {
        choose|i: int| 0 <= i < closed.len() && (#[trigger] closed[i]).id == id
    };
    assert(feed.current == Some(id) || is_closed(closed, id));
    if b < closed.len() {
        assert(buckets[b] == closed[b]);
    }
    assert(buckets[b].id == id);
    law_buckets_span_their_width(stream[k].ts as int, width, id);
    let at = law_trades_lie_in_the_span_of_their_bucket(width, stream, b);
    assert(at.contains(k));
    let i = choose|i: int| 0 <= i < at.len() && at[i] == k;
    assert(buckets[b].trades[i] == stream[k].trade);
    b
}

/// An instant lies less than a width behind the start of its bucket, also where the
/// width is negative.
pub proof fn law_instants_lie_behind_the_start_of_their_bucket(ts: int, width: int)
    requires
        width != 0,
    ensures
        0 <= ts - bucket_of(ts, width) * width,
        width > 0 ==> ts - bucket_of(ts, width) * width < width,
        width < 0 ==> ts - bucket_of(ts, width) * width < -width,
{
    let q = bucket_of(ts, width);
    assert(0 <= ts - q * width && (width > 0 ==> ts - q * width < width) && (width < 0 ==> ts - q
        * width < -width)) by (nonlinear_arith)
        requires
            q == ts / width,
            width != 0,
    ;
}

} // verus!
