//! Coinbase's history, in candles of one minute.
//!
//! Candles are asked for by window. An answer holds at most 300 candles, so a
//! window spans 300 minutes:
//!
//! ```text
//! GET https://api.coinbase.com/api/v3/brokerage/market/products/BTC-USD/candles
//!     ?start={secs}&end={secs}&granularity=ONE_MINUTE
//! ```
//!
//! The windows are walked forward in time. The candles of an answer come newest
//! first. Each becomes one row with its closing price and its volume. Candles
//! have no taker side.

use vstd::prelude::*;

use crate::calendar::placeable;
use crate::historical::cursor::Cursor;
use crate::historical::exchange_floor;
use crate::historical::schema::{ascending, sort_rows, sorts, TradeRow};
use crate::historical::sources::laws::{
    all_new, all_placed, law_each_offered_month_is_written_once, law_no_row_is_lost,
    law_pages_are_handed_out_in_turn, lemma_new_rows, lemma_settled_step, months_in_order,
    rows_held, rows_of, strictly_ascending, takes_up,
};
use crate::historical::sources::ledger::{
    all_labelled, flush_models, started, FlushModel, LedgerModel, MonthFlush, MonthLedger,
};
use crate::historical::sources::stored::{
    in_good_order, law_storing_again_changes_nothing, lemma_idle_run, StoreModel,
};
use crate::historical::sources::{
    first_instant, later_of, secs_of, to_secs, HistoricalFetcher, QuoteNumbers,
};
use crate::text::{bounded_value, integer_text, integer_value, parse_i64, write_i64};

verus! {

/// Where candles are asked for.
pub const CANDLES_URL: &'static str =
    "https://api.coinbase.com/api/v3/brokerage/market/products/BTC-USD/candles";

/// Most candles in an answer.
pub const PAGE_CANDLES: i64 = 300;

/// Seconds that a full window spans.
pub const PAGE_SECS: i64 = PAGE_CANDLES * 60;

/// A candle of an answer. The texts of its numbers are kept as they came.
pub struct CbCandle {
    pub start: String,
    pub close: String,
    pub volume: String,
}

/// What became of a request.
pub enum CoinbaseReply {
    /// No answer came, or one with a status other than success.
    Unavailable,
    /// An answer came that is not of the expected form.
    Unreadable,
    /// The candles of a window.
    Page(Vec<CbCandle>),
}

/// The instant of a candle in seconds, or zero where its text is no number.
pub open spec fn candle_secs(c: CbCandle) -> int {
    match bounded_value(c.start@, i64::MIN as int, i64::MAX as int) {
        Some(n) => n,
        None => 0,
    }
}

/// The instant of a candle in microseconds.
pub open spec fn candle_micros(c: CbCandle) -> int {
    candle_secs(c) * 1_000_000
}

/// Whether the instants of all candles can be held in microseconds.
pub open spec fn all_fit(candles: Seq<CbCandle>) -> bool {
    forall|i: int|
        0 <= i < candles.len() ==> i64::MIN <= candle_micros(#[trigger] candles[i]) <= i64::MAX
}

/// The row of a candle.
pub open spec fn coinbase_row(c: CbCandle, n: QuoteNumbers) -> TradeRow {
    TradeRow {
        ts_micros: candle_micros(c) as i64,
        price: n.price,
        quantity: n.quantity,
        side: None,
        exchange: "coinbase",
    }
}

/// Whether a candle makes a row: it lies before the end of the range, the cursor
/// has not passed it, and it has a positive price and volume.
pub open spec fn makes_row(c: CbCandle, n: QuoteNumbers, ledger: LedgerModel, up_to: int) -> bool {
    &&& candle_micros(c) < up_to
    &&& !ledger.covers(candle_micros(c))
    &&& !n.price.at_most_zero()
    &&& !n.quantity.at_most_zero()
}

/// The rows of the candles that make one, in order.
pub open spec fn coinbase_rows(
    candles: Seq<CbCandle>,
    numbers: Seq<QuoteNumbers>,
    ledger: LedgerModel,
    up_to: int,
) -> Seq<TradeRow>
    decreases candles.len(),
{
    if candles.len() == 0 {
        Seq::empty()
    } else {
        let before = coinbase_rows(candles.drop_last(), numbers.drop_last(), ledger, up_to);
        let (c, n) = (candles.last(), numbers.last());
        if makes_row(c, n, ledger, up_to) {
            before.push(coinbase_row(c, n))
        } else {
            before
        }
    }
}

/// Makes the rows of a window.
pub fn collect_rows(
    candles: &Vec<CbCandle>,
    numbers: &Vec<QuoteNumbers>,
    ledger: &MonthLedger,
    up_to_micros: i64,
) -> (rows: Vec<TradeRow>)
    requires
        candles@.len() == numbers@.len(),
        all_fit(candles@),
    ensures
        rows@ == coinbase_rows(candles@, numbers@, ledger@, up_to_micros as int),
        rows@.len() <= candles@.len(),
{
    let mut rows: Vec<TradeRow> = Vec::new();
    assert(candles@.take(0) =~= Seq::<CbCandle>::empty());
    for i in 0..candles.len()
        invariant
            candles@.len() == numbers@.len(),
            all_fit(candles@),
            rows@ == coinbase_rows(
                candles@.take(i as int),
                numbers@.take(i as int),
                ledger@,
                up_to_micros as int,
            ),
            rows@.len() <= i,
    {
        assert(candles@.take(i + 1).drop_last() =~= candles@.take(i as int));
        assert(numbers@.take(i + 1).drop_last() =~= numbers@.take(i as int));
        let secs: i64 = match parse_i64(candles[i].start.as_str()) {
            Some(s) => s,
            None => 0,
        };
        assert(candle_micros(candles@[i as int]) == secs * 1_000_000);
        let ts_micros: i64 = secs * 1_000_000;
        let n = numbers[i];
        if ts_micros < up_to_micros && !ledger.has_stored(ts_micros) && !n.price.is_at_most_zero()
            && !n.quantity.is_at_most_zero() {
            rows.push(
                TradeRow {
                    ts_micros,
                    price: n.price,
                    quantity: n.quantity,
                    side: None,
                    exchange: "coinbase",
                },
            );
        }
    }
    assert(candles@.take(candles@.len() as int) =~= candles@);
    assert(numbers@.take(numbers@.len() as int) =~= numbers@);
    rows
}

/// Rows in another order can all be placed where the rows could.
proof fn lemma_sorted_placeable(sorted: Seq<TradeRow>, rows: Seq<TradeRow>)
    requires
        sorts(sorted, rows),
        all_placed(rows),
    ensures
        all_placed(sorted),
        sorted.len() == rows.len(),
{
    lemma_sorted_holds_the_same(sorted, rows);
    assert forall|i: int| 0 <= i < sorted.len() implies placeable(
        (#[trigger] sorted[i]).ts_micros as int,
    ) by {
        assert(sorted.contains(sorted[i]));
        let k = choose|k: int| 0 <= k < rows.len() && rows[k] == sorted[i];
        assert(placeable(rows[k].ts_micros as int));
    }
}

/// A run over Coinbase's history.
pub struct CoinbaseRun {
    ledger: MonthLedger,
    window_start: i64,
    end_secs: i64,
    up_to_micros: i64,
    stopped: bool,
}

/// The state of a run: its ledger, the second that the next window starts at,
/// the end of the range in seconds and in microseconds, and whether an answer has
/// stopped it.
pub struct CoinbaseModel {
    pub ledger: LedgerModel,
    pub window_start: int,
    pub end_secs: int,
    pub up_to: int,
    pub stopped: bool,
}

impl View for CoinbaseRun {
    type V = CoinbaseModel;

    closed spec fn view(&self) -> CoinbaseModel {
        CoinbaseModel {
            ledger: self.ledger@,
            window_start: self.window_start as int,
            end_secs: self.end_secs as int,
            up_to: self.up_to_micros as int,
            stopped: self.stopped,
        }
    }
}

impl CoinbaseModel {
    /// Whether there is nothing left to ask for.
    pub open spec fn done(self) -> bool {
        self.stopped || self.window_start >= self.end_secs
    }

    /// The second that the next window ends at.
    pub open spec fn window_end(self) -> int {
        if self.window_start + PAGE_SECS < self.end_secs {
            self.window_start + PAGE_SECS
        } else {
            self.end_secs
        }
    }
}

/// The source of Coinbase's history.
pub struct CoinbaseFetcher {
    data_root: String,
}

impl HistoricalFetcher for CoinbaseFetcher {
    open spec fn name(&self) -> Seq<char> {
        "coinbase"@
    }

    fn exchange(&self) -> (name: &'static str)
        ensures
            name@ == "coinbase"@,
    {
        "coinbase"
    }
}

impl CoinbaseFetcher {
    /// The directory that the history is kept under.
    pub closed spec fn root(self) -> Seq<char> {
        self.data_root@
    }

    /// A source that keeps its history under the given directory.
    pub fn new(data_root: String) -> (f: Self)
        ensures
            f.root() == data_root@,
    {
        CoinbaseFetcher { data_root }
    }

    /// The directory that the history is kept under.
    pub fn data_root(&self) -> (root: &str)
        ensures
            root@ == self.root(),
    {
        self.data_root.as_str()
    }

    /// Starts a run over the range from `resume_from_micros` up to, but not
    /// with, `up_to_micros`. The seed is what the shard of the cursor's month
    /// holds already.
    pub fn fetch_range(
        &self,
        resume_from_micros: i64,
        up_to_micros: i64,
        cursor: Cursor,
        key: Option<(i32, u32)>,
        seed: Vec<TradeRow>,
    ) -> (run: CoinbaseRun)
        ensures
            run@ == (CoinbaseModel {
                ledger: started(cursor, key, seed@),
                window_start: secs_of(
                    first_instant(resume_from_micros as int, 1_483_228_800_000_000),
                ),
                end_secs: secs_of(up_to_micros as int),
                up_to: up_to_micros as int,
                stopped: false,
            }),
    {
        proof {
            reveal_strlit("coinbase");
            reveal_strlit("binance");
            assert("coinbase"@.len() != "binance"@.len());
        }
        let start: i64 = later_of(resume_from_micros, exchange_floor("coinbase"));
        CoinbaseRun {
            ledger: MonthLedger::resume(cursor, key, seed),
            window_start: to_secs(start),
            end_secs: to_secs(up_to_micros),
            up_to_micros,
            stopped: false,
        }
    }
}

impl CoinbaseRun {
    /// Whether there is nothing left to ask for.
    pub fn is_done(&self) -> (r: bool)
        ensures
            r == self@.done(),
    {
        self.stopped || self.window_start >= self.end_secs
    }

    /// The run's ledger.
    pub fn ledger(&self) -> (l: &MonthLedger)
        ensures
            l@ == self@.ledger,
    {
        &self.ledger
    }

    /// The second that the next window ends at.
    fn window_end(&self) -> (t: i64)
        ensures
            t == self@.window_end(),
    {
        if self.window_start > i64::MAX - PAGE_SECS || self.window_start + PAGE_SECS
            >= self.end_secs {
            self.end_secs
        } else {
            self.window_start + PAGE_SECS
        }
    }

    /// The `start` and `end` of the request for the next window.
    pub fn request_range(&self) -> (r: (String, String))
        ensures
            r.0@ == integer_text(self@.window_start),
            r.1@ == integer_text(self@.window_end()),
    {
        (write_i64(self.window_start), write_i64(self.window_end()))
    }

    /// Takes a reply in. A window's rows are gathered in the order of time, and
    /// complete months are handed out; the run goes on where the window ends. An
    /// answer that cannot be read stops the run; what is gathered is kept. Where
    /// no answer came the same request is to be made again.
    pub fn take_reply(
        &mut self,
        reply: &CoinbaseReply,
        numbers: &Vec<QuoteNumbers>,
    ) -> (flushes: Vec<MonthFlush>)
        requires
            reply matches CoinbaseReply::Page(candles) ==> {
                &&& candles@.len() == numbers@.len()
                &&& all_fit(candles@)
                &&& old(self)@.ledger.has_room(candles@.len() as int)
                &&& all_placed(
                    coinbase_rows(candles@, numbers@, old(self)@.ledger, old(self)@.up_to),
                )
            },
        ensures
            reply is Page && !old(self)@.done() ==> final(self)@.window_start
                > old(self)@.window_start,
            match reply {
                CoinbaseReply::Unavailable => final(self)@ == old(self)@ && flushes@.len() == 0,
                CoinbaseReply::Unreadable => final(self)@ == (CoinbaseModel {
                    stopped: true,
                    ..old(self)@
                }) && flushes@.len() == 0,
                CoinbaseReply::Page(candles) => takes_window(
                    old(self)@,
                    final(self)@,
                    coinbase_rows(candles@, numbers@, old(self)@.ledger, old(self)@.up_to),
                    flush_models(flushes@),
                ) && all_labelled(flushes@),
            },
    {
        match reply {
            CoinbaseReply::Unavailable => Vec::new(),
            CoinbaseReply::Unreadable => {
                self.stopped = true;
                Vec::new()
            },
            CoinbaseReply::Page(candles) => {
                let mut rows = collect_rows(candles, numbers, &self.ledger, self.up_to_micros);
                let ghost found = rows@;
                sort_rows(&mut rows);
                proof {
                    lemma_sorted_placeable(rows@, found);
                }
                let flushes = self.ledger.push_all(&rows);
                self.ledger.settle();
                self.window_start = self.window_end();
                assert(gathers_in_order(
                    old(self)@.ledger,
                    self@.ledger,
                    rows@,
                    found,
                    flush_models(flushes@),
                ));
                flushes
            },
        }
    }

    /// Ends the run: hands out what is still gathered.
    pub fn finish(&mut self) -> (out: Option<MonthFlush>)
        requires
            old(self)@.ledger.has_room(0),
        ensures
            ({
                let after = old(self)@.ledger.flush();
                &&& final(self)@ == (CoinbaseModel { ledger: after.afresh(), ..old(self)@ })
                &&& match out {
                    Some(f) => after.written == seq![f@] && f.labelled(),
                    None => after.written == Seq::<FlushModel>::empty(),
                }
            }),
    {
        self.ledger.flush()
    }
}

/// Whether one ledger follows from another by gathering rows in a given order of
/// time, with what that hands out.
pub open spec fn gathers_in_order(
    before: LedgerModel,
    after: LedgerModel,
    sorted: Seq<TradeRow>,
    rows: Seq<TradeRow>,
    handed_out: Seq<FlushModel>,
) -> bool {
    let whole = before.push_all(sorted).settle();
    sorts(sorted, rows) && after == whole.afresh() && handed_out == whole.written
}

/// Whether one state follows from another by a window's rows, gathered in the
/// order of time, with what that hands out.
pub open spec fn takes_window(
    before: CoinbaseModel,
    after: CoinbaseModel,
    rows: Seq<TradeRow>,
    handed_out: Seq<FlushModel>,
) -> bool {
    &&& after.window_start == before.window_end()
    &&& after.end_secs == before.end_secs
    &&& after.up_to == before.up_to
    &&& after.stopped == before.stopped
    &&& exists|sorted: Seq<TradeRow>|
        #[trigger] gathers_in_order(before.ledger, after.ledger, sorted, rows, handed_out)
}

/// The end of the range belongs to it no more: every row of a window that is kept
/// lies before it. None of them has been passed by the cursor.
pub proof fn law_rows_are_new_and_before_the_end(
    candles: Seq<CbCandle>,
    numbers: Seq<QuoteNumbers>,
    ledger: LedgerModel,
    up_to: int,
)
    requires
        candles.len() == numbers.len(),
        all_fit(candles),
    ensures
        forall|i: int|
            0 <= i < coinbase_rows(candles, numbers, ledger, up_to).len() ==> {
                let ts = (#[trigger] coinbase_rows(candles, numbers, ledger, up_to)[i]).ts_micros;
                ts < up_to && !ledger.covers(ts as int)
            },
    decreases candles.len(),
{
    if candles.len() > 0 {
        let head = candles.drop_last();
        assert forall|i: int| 0 <= i < head.len() implies i64::MIN <= candle_micros(
            #[trigger] head[i],
        ) <= i64::MAX by {
            assert(head[i] == candles[i]);
        }
        law_rows_are_new_and_before_the_end(head, numbers.drop_last(), ledger, up_to);
        assert(candles.last() == candles[candles.len() - 1]);
    }
}

/// The rows of a window are those of the candles that make one.
proof fn lemma_rows_of_candles(
    candles: Seq<CbCandle>,
    numbers: Seq<QuoteNumbers>,
    ledger: LedgerModel,
    up_to: int,
)
    requires
        candles.len() == numbers.len(),
    ensures
        forall|k: int|
            0 <= k < candles.len() && makes_row(#[trigger] candles[k], numbers[k], ledger, up_to)
                ==> coinbase_rows(candles, numbers, ledger, up_to).contains(
                coinbase_row(candles[k], numbers[k]),
            ),
        forall|row: TradeRow| #[trigger]
            coinbase_rows(candles, numbers, ledger, up_to).contains(row) ==> exists|k: int|
                0 <= k < candles.len() && makes_row(
                    #[trigger] candles[k],
                    numbers[k],
                    ledger,
                    up_to,
                ) && row == coinbase_row(candles[k], numbers[k]),
    decreases candles.len(),
{
    if candles.len() > 0 {
        let (cs, ns) = (candles.drop_last(), numbers.drop_last());
        let before = coinbase_rows(cs, ns, ledger, up_to);
        let rows = coinbase_rows(candles, numbers, ledger, up_to);
        let last = candles.len() - 1;
        lemma_rows_of_candles(cs, ns, ledger, up_to);
        assert forall|row: TradeRow| before.contains(row) implies #[trigger] rows.contains(row) by {
            let i = choose|i: int| 0 <= i < before.len() && before[i] == row;
            assert(rows[i] == row);
        }
        assert forall|k: int|
            0 <= k < candles.len() && makes_row(
                #[trigger] candles[k],
                numbers[k],
                ledger,
                up_to,
            ) implies rows.contains(coinbase_row(candles[k], numbers[k])) by {
            if k < last {
                assert(cs[k] == candles[k]);
                assert(before.contains(coinbase_row(cs[k], ns[k])));
            } else {
                assert(rows[rows.len() - 1] == coinbase_row(candles[k], numbers[k]));
            }
        }
        assert forall|row: TradeRow| #[trigger] rows.contains(row) implies exists|k: int|
            0 <= k < candles.len() && makes_row(#[trigger] candles[k], numbers[k], ledger, up_to)
                && row == coinbase_row(candles[k], numbers[k]) by {
            let i = choose|i: int| 0 <= i < rows.len() && rows[i] == row;
            if i < before.len() {
                assert(before[i] == row);
                assert(before.contains(row));
                let k = choose|k: int|
                    0 <= k < cs.len() && makes_row(#[trigger] cs[k], ns[k], ledger, up_to) && row
                        == coinbase_row(cs[k], ns[k]);
                assert(candles[k] == cs[k]);
            } else {
                assert(candles[last] == candles.last());
            }
        }
    }
}

// ── Whole runs ──────────────────────────────────────────────────────────────

/// A window as it is taken in: its candles and their numbers.
pub struct WindowModel {
    pub candles: Seq<CbCandle>,
    pub numbers: Seq<QuoteNumbers>,
}

/// The rows that a state makes of a window.
pub open spec fn window_rows(m: CoinbaseModel, w: WindowModel) -> Seq<TradeRow> {
    coinbase_rows(w.candles, w.numbers, m.ledger, m.up_to)
}

/// Whether a state can take a window in: every candle has its numbers and an
/// instant that can be held, and every row lies in the calendar.
pub open spec fn can_take(m: CoinbaseModel, w: WindowModel) -> bool {
    &&& w.candles.len() == w.numbers.len()
    &&& all_fit(w.candles)
    &&& all_placed(window_rows(m, w))
}

/// Whether states follow one another by taking windows in, with what each window
/// hands out. Replies without a window have no place in it: they leave the ledger
/// as it was.
pub open spec fn runs_over(
    states: Seq<CoinbaseModel>,
    windows: Seq<WindowModel>,
    handed: Seq<Seq<FlushModel>>,
) -> bool {
    &&& states.len() == windows.len() + 1
    &&& handed.len() == windows.len()
    &&& forall|i: int|
        0 <= i < windows.len() ==> can_take(states[i], #[trigger] windows[i]) && takes_window(
            states[i],
            states[i + 1],
            window_rows(states[i], windows[i]),
            handed[i],
        )
}

/// What was handed out in several goes, one behind the other.
pub open spec fn in_turn(handed: Seq<Seq<FlushModel>>) -> Seq<FlushModel>
    decreases handed.len(),
{
    if handed.len() == 0 {
        Seq::empty()
    } else {
        in_turn(handed.drop_last()) + handed.last()
    }
}

/// All that a run hands out, with what it hands out at its end.
pub open spec fn all_handed(
    states: Seq<CoinbaseModel>,
    handed: Seq<Seq<FlushModel>>,
) -> Seq<FlushModel> {
    in_turn(handed) + states.last().ledger.flush().written
}

/// What the store holds behind a run that started from it.
pub open spec fn store_after(
    store: StoreModel,
    states: Seq<CoinbaseModel>,
    handed: Seq<Seq<FlushModel>>,
) -> StoreModel {
    store.put_all(all_handed(states, handed))
}

/// Whether one of the windows holds a candle of an instant with given numbers.
pub open spec fn is_among(windows: Seq<WindowModel>, micros: int, n: QuoteNumbers) -> bool {
    exists|w: int, k: int|
        0 <= w < windows.len() && 0 <= k < windows[w].candles.len() && candle_micros(
            #[trigger] windows[w].candles[k],
        ) == micros && windows[w].numbers[k] == n
}

/// An order of time in which a window's rows were gathered.
spec fn order_taken(
    before: CoinbaseModel,
    after: CoinbaseModel,
    w: WindowModel,
    handed_out: Seq<FlushModel>,
) -> Seq<TradeRow> {
    choose|sorted: Seq<TradeRow>| #[trigger]
        gathers_in_order(before.ledger, after.ledger, sorted, window_rows(before, w), handed_out)
}

/// Rows in the order of time are the same rows.
proof fn lemma_sorted_holds_the_same(sorted: Seq<TradeRow>, rows: Seq<TradeRow>)
    requires
        sorts(sorted, rows),
    ensures
        sorted.len() == rows.len(),
        forall|row: TradeRow| #[trigger] sorted.contains(row) <==> rows.contains(row),
{
    broadcast use vstd::seq_lib::group_to_multiset_ensures;

    assert(sorted.len() == sorted.to_multiset().len());
    assert(rows.len() == rows.to_multiset().len());
    assert forall|row: TradeRow| #[trigger] sorted.contains(row) <==> rows.contains(row) by {
        assert(sorted.contains(row) <==> sorted.to_multiset().count(row) > 0);
        assert(rows.contains(row) <==> rows.to_multiset().count(row) > 0);
    }
}

/// What a window does to a run that ends at its cursor: its rows are gathered in
/// an order of time, and the cursor stands at the last of them.
proof fn lemma_window(
    before: CoinbaseModel,
    after: CoinbaseModel,
    w: WindowModel,
    handed_out: Seq<FlushModel>,
)
    requires
        takes_up(before.ledger),
        can_take(before, w),
        takes_window(before, after, window_rows(before, w), handed_out),
    ensures
        ({
            let rows = window_rows(before, w);
            let sorted = order_taken(before, after, w, handed_out);
            &&& gathers_in_order(before.ledger, after.ledger, sorted, rows, handed_out)
            &&& ascending(sorted)
            &&& all_new(before.ledger, sorted)
            &&& forall|row: TradeRow| #[trigger] sorted.contains(row) <==> rows.contains(row)
            &&& takes_up(after.ledger)
            &&& sorted.len() == 0 ==> after.ledger == before.ledger && handed_out.len() == 0
            &&& sorted.len() > 0 ==> after.ledger.last_ts == Some(sorted.last().ts_micros)
            &&& forall|ts: int| before.ledger.covers(ts) ==> #[trigger] after.ledger.covers(ts)
            &&& forall|row: TradeRow| #[trigger]
                rows.contains(row) ==> after.ledger.covers(row.ts_micros as int)
            &&& sorted.len() == rows.len()
        }),
{
    let rows = window_rows(before, w);
    let sorted = order_taken(before, after, w, handed_out);
    assert(gathers_in_order(before.ledger, after.ledger, sorted, rows, handed_out));
    law_rows_are_new_and_before_the_end(w.candles, w.numbers, before.ledger, before.up_to);
    lemma_sorted_holds_the_same(sorted, rows);
    assert forall|i: int| 0 <= i < sorted.len() implies placeable(
        (#[trigger] sorted[i]).ts_micros as int,
    ) && !before.ledger.covers(sorted[i].ts_micros as int) by {
        assert(sorted.contains(sorted[i]));
        let k = choose|k: int| 0 <= k < rows.len() && rows[k] == sorted[i];
        assert(placeable(rows[k].ts_micros as int));
    }
    lemma_new_rows(before.ledger, sorted);
    if sorted.len() > 0 {
        assert(sorted.last() == sorted[sorted.len() - 1]);
    } else {
        assert(before.ledger.written =~= Seq::<FlushModel>::empty());
        assert(before.ledger.push_all(sorted) == before.ledger);
    }
    assert forall|row: TradeRow| #[trigger] rows.contains(row) implies after.ledger.covers(
        row.ts_micros as int,
    ) by {
        assert(sorted.contains(row));
        let j = choose|j: int| 0 <= j < sorted.len() && sorted[j] == row;
        assert(sorted[j].ts_micros <= sorted[sorted.len() - 1].ts_micros);
    }
}

/// Fetching a window again duplicates none of its rows: the candles that have
/// been taken in make no rows a second time.
pub proof fn law_a_window_taken_again_adds_nothing(
    before: CoinbaseModel,
    after: CoinbaseModel,
    w: WindowModel,
    handed_out: Seq<FlushModel>,
)
    requires
        takes_up(before.ledger),
        can_take(before, w),
        takes_window(before, after, window_rows(before, w), handed_out),
    ensures
        window_rows(after, w).len() == 0,
{
    let again = window_rows(after, w);
    lemma_window(before, after, w, handed_out);
    lemma_rows_of_candles(w.candles, w.numbers, before.ledger, before.up_to);
    lemma_rows_of_candles(w.candles, w.numbers, after.ledger, after.up_to);
    if again.len() > 0 {
        assert(again.contains(again[0]));
        let k = choose|k: int|
            0 <= k < w.candles.len() && makes_row(
                #[trigger] w.candles[k],
                w.numbers[k],
                after.ledger,
                after.up_to,
            ) && again[0] == coinbase_row(w.candles[k], w.numbers[k]);
        assert(window_rows(before, w).contains(coinbase_row(w.candles[k], w.numbers[k])));
    }
}

/// The rows gathered from the first windows of a run, in the order of time.
spec fn gathered(
    states: Seq<CoinbaseModel>,
    windows: Seq<WindowModel>,
    handed: Seq<Seq<FlushModel>>,
    n: int,
) -> Seq<TradeRow>
    decreases n,
{
    if n <= 0 {
        Seq::empty()
    } else {
        gathered(states, windows, handed, n - 1) + order_taken(
            states[n - 1],
            states[n],
            windows[n - 1],
            handed[n - 1],
        )
    }
}

/// Part of the way through a run: its ledger is where the rows gathered so far
/// lead when they are taken in one go, and that is what was handed out.
proof fn lemma_run_so_far(
    states: Seq<CoinbaseModel>,
    windows: Seq<WindowModel>,
    handed: Seq<Seq<FlushModel>>,
    n: int,
)
    requires
        takes_up(states[0].ledger),
        runs_over(states, windows, handed),
        0 <= n <= windows.len(),
    ensures
        ({
            let start = states[0].ledger;
            let l = states[n].ledger;
            let rows = gathered(states, windows, handed, n);
            &&& ascending(rows)
            &&& all_new(start, rows)
            &&& l == start.push_all(rows).settle().afresh()
            &&& in_turn(handed.take(n)) == start.push_all(rows).written
            &&& takes_up(l)
            &&& states[n].up_to == states[0].up_to
            &&& rows.len() > 0 ==> l.last_ts == Some(rows.last().ts_micros)
            &&& rows.len() == 0 ==> l == start
        }),
    decreases n,
{
    let start = states[0].ledger;
    if n == 0 {
        assert(handed.take(0) =~= Seq::<Seq<FlushModel>>::empty());
        assert(start.written =~= Seq::<FlushModel>::empty());
        assert(start.push_all(gathered(states, windows, handed, 0)) == start);
    } else {
        lemma_run_so_far(states, windows, handed, n - 1);
        let before = gathered(states, windows, handed, n - 1);
        let l = states[n - 1].ledger;
        let sorted = order_taken(states[n - 1], states[n], windows[n - 1], handed[n - 1]);
        let all = before + sorted;
        assert(can_take(states[n - 1], windows[n - 1]));
        lemma_window(states[n - 1], states[n], windows[n - 1], handed[n - 1]);
        assert(handed.take(n).drop_last() =~= handed.take(n - 1));
        assert(handed.take(n).last() == handed[n - 1]);
        lemma_stretches(start, l, before, sorted);
        lemma_settled_step(start, before, sorted);
        let settled = start.push_all(before).settle();
        assert(settled.afresh() == l);
        lemma_new_rows(l, sorted);
        law_pages_are_handed_out_in_turn(settled, sorted);
        assert(settled.offer_all(sorted).settle() == start.push_all(all).settle());
        if sorted.len() == 0 {
            assert(all =~= before);
        } else {
            assert(all.last() == sorted.last());
        }
    }
}

/// Rows behind the cursor that earlier rows led to lie behind those rows.
proof fn lemma_stretches(
    start: LedgerModel,
    l: LedgerModel,
    before: Seq<TradeRow>,
    sorted: Seq<TradeRow>,
)
    requires
        ascending(before),
        all_new(start, before),
        ascending(sorted),
        all_new(l, sorted),
        before.len() > 0 ==> l.last_ts == Some(before.last().ts_micros),
        before.len() == 0 ==> l == start,
    ensures
        ascending(before + sorted),
        all_new(start, before + sorted),
        before.len() > 0 && sorted.len() > 0 ==> before.last().ts_micros < sorted[0].ts_micros,
{
    let all = before + sorted;
    assert forall|i: int| 0 <= i < sorted.len() && before.len() > 0 implies
        before.last().ts_micros < (#[trigger] sorted[i]).ts_micros by {
        assert(!l.covers(sorted[i].ts_micros as int));
    }
    assert forall|i: int, j: int| 0 <= i <= j < all.len() implies (#[trigger] all[i]).ts_micros <= (
    #[trigger] all[j]).ts_micros by {
        let n = before.len() as int;
        if j < n {
            assert(all[i] == before[i] && all[j] == before[j]);
        } else if i >= n {
            assert(all[i] == sorted[i - n] && all[j] == sorted[j - n]);
        } else {
            assert(all[i] == before[i] && all[j] == sorted[j - n]);
            assert(before[i].ts_micros <= before[n - 1].ts_micros);
        }
    }
    assert forall|i: int| 0 <= i < all.len() implies placeable((#[trigger] all[i]).ts_micros as int)
        && !start.covers(all[i].ts_micros as int) by {
        let n = before.len() as int;
        if i < n {
            assert(all[i] == before[i]);
        } else {
            assert(all[i] == sorted[i - n]);
            if n > 0 {
                assert(!start.covers(before[n - 1].ts_micros as int));
            }
        }
    }
}

/// A run hands out what its rows do when they are offered in one go.
proof fn lemma_whole_run(
    states: Seq<CoinbaseModel>,
    windows: Seq<WindowModel>,
    handed: Seq<Seq<FlushModel>>,
)
    requires
        takes_up(states[0].ledger),
        runs_over(states, windows, handed),
    ensures
        ({
            let start = states[0].ledger;
            let rows = gathered(states, windows, handed, windows.len() as int);
            &&& ascending(rows)
            &&& all_placed(rows)
            &&& all_new(start, rows)
            &&& start.offer_all(rows) == start.push_all(rows)
            &&& all_handed(states, handed) == start.offer_all(rows).flush().written
            &&& rows_of(all_handed(states, handed)) == start.buf + rows
        }),
{
    let n = windows.len() as int;
    let start = states[0].ledger;
    let rows = gathered(states, windows, handed, n);
    lemma_run_so_far(states, windows, handed, n);
    assert(handed.take(n) =~= handed);
    lemma_new_rows(start, rows);
    let whole = start.push_all(rows);
    let l = states.last().ledger;
    assert(all_handed(states, handed) =~= whole.flush().written);
    law_no_row_is_lost(start, rows);
    assert(rows_of(start.written) =~= Seq::<TradeRow>::empty());
    assert(rows_held(start) =~= start.buf);
    assert(rows_held(whole.flush()) =~= rows_of(whole.flush().written));
}

/// A run that takes up where an earlier one ended hands each month out once,
/// whole and in order, with the cursor at its last row.
pub proof fn law_each_month_is_handed_out_once(
    states: Seq<CoinbaseModel>,
    windows: Seq<WindowModel>,
    handed: Seq<Seq<FlushModel>>,
)
    requires
        takes_up(states[0].ledger),
        runs_over(states, windows, handed),
    ensures
        months_in_order(all_handed(states, handed)),
{
    let rows = gathered(states, windows, handed, windows.len() as int);
    lemma_whole_run(states, windows, handed);
    law_each_offered_month_is_written_once(states[0].ledger, rows);
}

/// Behind a run the cursor has passed every row that it gathered, and all that
/// its cursor had passed on the way.
proof fn lemma_cursor_moves_on(
    states: Seq<CoinbaseModel>,
    windows: Seq<WindowModel>,
    handed: Seq<Seq<FlushModel>>,
    i: int,
    j: int,
)
    requires
        takes_up(states[0].ledger),
        runs_over(states, windows, handed),
        0 <= i <= j <= windows.len(),
    ensures
        forall|ts: int| states[i].ledger.covers(ts) ==> #[trigger] states[j].ledger.covers(ts),
    decreases j - i,
{
    if i < j {
        lemma_cursor_moves_on(states, windows, handed, i, j - 1);
        lemma_run_so_far(states, windows, handed, j - 1);
        assert(can_take(states[j - 1], windows[j - 1]));
        lemma_window(states[j - 1], states[j], windows[j - 1], handed[j - 1]);
        assert forall|ts: int| states[i].ledger.covers(ts) implies #[trigger] states[j].ledger.covers(
            ts,
        ) by {
            assert(states[j - 1].ledger.covers(ts));
        }
    }
}

/// Behind a run the cursor has passed every candle in the range that has a
/// positive price and volume.
proof fn lemma_candle_is_passed(
    states: Seq<CoinbaseModel>,
    windows: Seq<WindowModel>,
    handed: Seq<Seq<FlushModel>>,
    w: int,
    k: int,
)
    requires
        takes_up(states[0].ledger),
        runs_over(states, windows, handed),
        0 <= w < windows.len(),
        0 <= k < windows[w].candles.len(),
        candle_micros(windows[w].candles[k]) < states[0].up_to,
        !windows[w].numbers[k].price.at_most_zero(),
        !windows[w].numbers[k].quantity.at_most_zero(),
    ensures
        states.last().ledger.covers(candle_micros(windows[w].candles[k])),
{
    let (m, window) = (states[w], windows[w]);
    let ts = candle_micros(window.candles[k]);
    lemma_run_so_far(states, windows, handed, w);
    assert(can_take(m, window));
    lemma_window(m, states[w + 1], window, handed[w]);
    lemma_rows_of_candles(window.candles, window.numbers, m.ledger, m.up_to);
    lemma_cursor_moves_on(states, windows, handed, w + 1, windows.len() as int);
    if !m.ledger.covers(ts) {
        let row = coinbase_row(window.candles[k], window.numbers[k]);
        assert(makes_row(window.candles[k], window.numbers[k], m.ledger, m.up_to));
        assert(window_rows(m, window).contains(row));
        assert(row.ts_micros == ts);
    }
    assert(states[w + 1].ledger.covers(ts));
}

/// A run over nothing but candles that the cursor has passed, or that make no
/// row, stays as it started and hands out nothing on the way.
proof fn lemma_idle_windows(
    states: Seq<CoinbaseModel>,
    windows: Seq<WindowModel>,
    handed: Seq<Seq<FlushModel>>,
    n: int,
)
    requires
        takes_up(states[0].ledger),
        runs_over(states, windows, handed),
        forall|w: int|
            0 <= w < windows.len() ==> coinbase_rows(
                (#[trigger] windows[w]).candles,
                windows[w].numbers,
                states[0].ledger,
                states[0].up_to,
            ).len() == 0,
        0 <= n <= windows.len(),
    ensures
        states[n].ledger == states[0].ledger,
        states[n].up_to == states[0].up_to,
        in_turn(handed.take(n)).len() == 0,
    decreases n,
{
    if n > 0 {
        lemma_idle_windows(states, windows, handed, n - 1);
        assert(can_take(states[n - 1], windows[n - 1]));
        lemma_window(states[n - 1], states[n], windows[n - 1], handed[n - 1]);
        assert(handed.take(n).drop_last() =~= handed.take(n - 1));
        assert(handed.take(n).last() == handed[n - 1]);
    }
}

/// Fetching a range twice changes nothing: where a second run, started from what
/// the first left behind, is answered with no other candles than the first was,
/// every shard holds the same rows afterwards, none twice and none lost, and the
/// saved cursor stands at the same timestamp.
pub proof fn law_fetching_a_range_twice_changes_nothing(
    store: StoreModel,
    states: Seq<CoinbaseModel>,
    windows: Seq<WindowModel>,
    handed: Seq<Seq<FlushModel>>,
    again: Seq<CoinbaseModel>,
    again_windows: Seq<WindowModel>,
    again_handed: Seq<Seq<FlushModel>>,
)
    requires
        in_good_order(store),
        states[0].ledger == store.reopen(),
        runs_over(states, windows, handed),
        runs_over(again, again_windows, again_handed),
        again[0].up_to == states[0].up_to,
        again[0].ledger == store_after(store, states, handed).reopen(),
        forall|w: int, k: int|
            0 <= w < again_windows.len() && 0 <= k < again_windows[w].candles.len() ==> is_among(
                windows,
                candle_micros(#[trigger] again_windows[w].candles[k]),
                again_windows[w].numbers[k],
            ),
    ensures
        store_after(store_after(store, states, handed), again, again_handed).same_rows(
            store_after(store, states, handed),
        ),
{
    let once = store_after(store, states, handed);
    let rows = gathered(states, windows, handed, windows.len() as int);
    lemma_whole_run(states, windows, handed);
    law_storing_again_changes_nothing(store, rows, Seq::empty());
    assert(once == store.after(rows));
    let second = once.reopen();
    lemma_cursor_is_saved(store, states, windows, handed);
    assert forall|w: int| 0 <= w < again_windows.len() implies coinbase_rows(
        (#[trigger] again_windows[w]).candles,
        again_windows[w].numbers,
        second,
        states[0].up_to,
    ).len() == 0 by {
        let window = again_windows[w];
        let found = coinbase_rows(window.candles, window.numbers, second, states[0].up_to);
        assert(can_take(again[w], window));
        lemma_rows_of_candles(window.candles, window.numbers, second, states[0].up_to);
        if found.len() > 0 {
            assert(found.contains(found[0]));
            let k = choose|k: int|
                0 <= k < window.candles.len() && makes_row(
                    #[trigger] window.candles[k],
                    window.numbers[k],
                    second,
                    states[0].up_to,
                ) && found[0] == coinbase_row(window.candles[k], window.numbers[k]);
            let ts = candle_micros(again_windows[w].candles[k]);
            assert(is_among(windows, ts, window.numbers[k]));
            let (v, q) = choose|v: int, q: int|
                0 <= v < windows.len() && 0 <= q < windows[v].candles.len() && candle_micros(
                    #[trigger] windows[v].candles[q],
                ) == ts && windows[v].numbers[q] == window.numbers[k];
            lemma_candle_is_passed(states, windows, handed, v, q);
            assert(second.covers(ts));
        }
    }
    lemma_idle_windows(again, again_windows, again_handed, again_windows.len() as int);
    assert(again_handed.take(again_windows.len() as int) =~= again_handed);
    assert(all_handed(again, again_handed) =~= second.flush().written);
    lemma_idle_run(once);
}

/// The cursor that a run leaves in the store is where its own stands.
proof fn lemma_cursor_is_saved(
    store: StoreModel,
    states: Seq<CoinbaseModel>,
    windows: Seq<WindowModel>,
    handed: Seq<Seq<FlushModel>>,
)
    requires
        in_good_order(store),
        states[0].ledger == store.reopen(),
        runs_over(states, windows, handed),
    ensures
        store_after(store, states, handed).last_ts == states.last().ledger.last_ts,
{
    let n = windows.len() as int;
    let l = states.last().ledger;
    let written = all_handed(states, handed);
    lemma_run_so_far(states, windows, handed, n);
    lemma_new_rows(states[0].ledger, gathered(states, windows, handed, n));
    assert(handed.take(n) =~= handed);
    if l.buf.len() > 0 {
        assert(written.last() == l.flush().written[0]);
    } else {
        assert(written =~= Seq::<FlushModel>::empty());
        assert(store.put_all(written) == store);
    }
}

/// Whether each instant has one candle at most.
pub open spec fn each_instant_once(candles: Seq<CbCandle>) -> bool {
    forall|i: int, j: int|
        0 <= i < j < candles.len() ==> candle_micros(#[trigger] candles[i]) != candle_micros(
            #[trigger] candles[j],
        )
}

/// Whether each window answers the request that its state makes: there is
/// something left to ask for, and the candles lie between the window's start and
/// its end, which may belong to the next window too, each instant having one.
pub open spec fn is_answered(states: Seq<CoinbaseModel>, windows: Seq<WindowModel>) -> bool {
    forall|w: int|
        0 <= w < windows.len() ==> {
            &&& !states[w].done()
            &&& each_instant_once((#[trigger] windows[w]).candles)
            &&& forall|k: int|
                0 <= k < windows[w].candles.len() ==> states[w].window_start <= candle_secs(
                    #[trigger] windows[w].candles[k],
                ) <= states[w].window_end()
        }
}

/// Whether candles of one instant have the same numbers in whichever window they
/// stand.
pub open spec fn agree(windows: Seq<WindowModel>) -> bool {
    forall|w: int, k: int, v: int, q: int|
        #![trigger windows[w].candles[k], windows[v].candles[q]]
        0 <= w < windows.len() && 0 <= k < windows[w].candles.len() && 0 <= v < windows.len() && 0
            <= q < windows[v].candles.len() && candle_micros(windows[w].candles[k])
            == candle_micros(windows[v].candles[q]) ==> windows[w].numbers[k]
            == windows[v].numbers[q]
}

/// The rows that a run has added to those of the cursor's month.
pub open spec fn rows_added(
    states: Seq<CoinbaseModel>,
    handed: Seq<Seq<FlushModel>>,
) -> Seq<TradeRow> {
    rows_of(all_handed(states, handed)).skip(states[0].ledger.buf.len() as int)
}

/// Whether a row is that of a candle of the windows that makes one.
pub open spec fn is_of_candle(
    row: TradeRow,
    windows: Seq<WindowModel>,
    ledger: LedgerModel,
    up_to: int,
) -> bool {
    exists|w: int, k: int|
        0 <= w < windows.len() && 0 <= k < windows[w].candles.len() && makes_row(
            #[trigger] windows[w].candles[k],
            windows[w].numbers[k],
            ledger,
            up_to,
        ) && row == coinbase_row(windows[w].candles[k], windows[w].numbers[k])
}

/// Whether rows have one of an instant.
pub open spec fn has_instant(rows: Seq<TradeRow>, micros: int) -> bool {
    exists|i: int| 0 <= i < rows.len() && (#[trigger] rows[i]).ts_micros == micros
}

/// Where each instant has one candle, the rows of a window in the order of time
/// lie each behind the one before it.
proof fn lemma_one_row_per_instant(
    sorted: Seq<TradeRow>,
    candles: Seq<CbCandle>,
    numbers: Seq<QuoteNumbers>,
    ledger: LedgerModel,
    up_to: int,
)
    requires
        candles.len() == numbers.len(),
        all_fit(candles),
        each_instant_once(candles),
        sorts(sorted, coinbase_rows(candles, numbers, ledger, up_to)),
    ensures
        strictly_ascending(sorted),
{
    broadcast use vstd::seq_lib::group_to_multiset_ensures;

    let rows = coinbase_rows(candles, numbers, ledger, up_to);
    lemma_instants_differ(candles, numbers, ledger, up_to);
    lemma_sorted_holds_the_same(sorted, rows);
    assert(rows.no_duplicates());
    rows.lemma_multiset_has_no_duplicates();
    sorted.lemma_multiset_has_no_duplicates_conv();
    assert forall|i: int, j: int| 0 <= i < j < sorted.len() implies (
    #[trigger] sorted[i]).ts_micros < (#[trigger] sorted[j]).ts_micros by {
        assert(sorted[i].ts_micros <= sorted[j].ts_micros);
        assert(sorted.contains(sorted[i]) && sorted.contains(sorted[j]));
        let a = choose|a: int| 0 <= a < rows.len() && rows[a] == sorted[i];
        let b = choose|b: int| 0 <= b < rows.len() && rows[b] == sorted[j];
        assert(sorted[i] != sorted[j]);
        if a < b {
            assert(rows[a].ts_micros != rows[b].ts_micros);
        } else {
            assert(rows[b].ts_micros != rows[a].ts_micros);
        }
    }
}

proof fn lemma_instants_differ(
    candles: Seq<CbCandle>,
    numbers: Seq<QuoteNumbers>,
    ledger: LedgerModel,
    up_to: int,
)
    requires
        candles.len() == numbers.len(),
        all_fit(candles),
        each_instant_once(candles),
    ensures
        ({
            let rows = coinbase_rows(candles, numbers, ledger, up_to);
            forall|i: int, j: int|
                0 <= i < j < rows.len() ==> (#[trigger] rows[i]).ts_micros != (
                #[trigger] rows[j]).ts_micros
        }),
    decreases candles.len(),
{
    if candles.len() > 0 {
        let (cs, ns) = (candles.drop_last(), numbers.drop_last());
        let before = coinbase_rows(cs, ns, ledger, up_to);
        let rows = coinbase_rows(candles, numbers, ledger, up_to);
        let last = candles.len() - 1;
        assert forall|i: int| 0 <= i < cs.len() implies #[trigger] cs[i] == candles[i] by {}
        lemma_instants_differ(cs, ns, ledger, up_to);
        lemma_rows_of_candles(cs, ns, ledger, up_to);
        assert forall|i: int, j: int| 0 <= i < j < rows.len() implies (
        #[trigger] rows[i]).ts_micros != (#[trigger] rows[j]).ts_micros by {
            assert(rows[i] == before[i]);
            if j < before.len() {
                assert(rows[j] == before[j]);
            } else {
                assert(before.contains(before[i]));
                let k = choose|k: int|
                    0 <= k < cs.len() && makes_row(#[trigger] cs[k], ns[k], ledger, up_to)
                        && before[i] == coinbase_row(cs[k], ns[k]);
                assert(candle_micros(candles[k]) != candle_micros(candles[last]));
            }
        }
    }
}

/// The rows gathered are those that the states make of the windows.
proof fn lemma_gathered_rows(
    states: Seq<CoinbaseModel>,
    windows: Seq<WindowModel>,
    handed: Seq<Seq<FlushModel>>,
    n: int,
)
    requires
        takes_up(states[0].ledger),
        runs_over(states, windows, handed),
        0 <= n <= windows.len(),
    ensures
        forall|row: TradeRow| #[trigger]
            gathered(states, windows, handed, n).contains(row) <==> exists|w: int|
                0 <= w < n && window_rows(states[w], #[trigger] windows[w]).contains(row),
    decreases n,
{
    if n > 0 {
        let before = gathered(states, windows, handed, n - 1);
        let all = gathered(states, windows, handed, n);
        let sorted = order_taken(states[n - 1], states[n], windows[n - 1], handed[n - 1]);
        lemma_gathered_rows(states, windows, handed, n - 1);
        lemma_run_so_far(states, windows, handed, n - 1);
        assert(can_take(states[n - 1], windows[n - 1]));
        lemma_window(states[n - 1], states[n], windows[n - 1], handed[n - 1]);
        let found = |row: TradeRow, k: int|
            exists|w: int| 0 <= w < k
                && window_rows(states[w], #[trigger] windows[w]).contains(row);
        assert forall|row: TradeRow| #[trigger] all.contains(row) <==> found(row, n) by {
            lemma_either_stretch(before, sorted, row);
            assert(before.contains(row) <==> found(row, n - 1));
            assert(sorted.contains(row) <==> window_rows(
                states[n - 1],
                windows[n - 1],
            ).contains(row));
            if found(row, n) {
                let w = choose|w: int|
                    0 <= w < n && window_rows(states[w], #[trigger] windows[w]).contains(row);
                if w < n - 1 {
                    assert(found(row, n - 1));
                }
            }
        }
    }
}

/// What two stretches hold together one of them holds.
proof fn lemma_either_stretch(a: Seq<TradeRow>, b: Seq<TradeRow>, row: TradeRow)
    ensures
        (a + b).contains(row) <==> a.contains(row) || b.contains(row),
{
    let all = a + b;
    if a.contains(row) {
        let i = choose|i: int| 0 <= i < a.len() && a[i] == row;
        assert(all[i] == row);
    }
    if b.contains(row) {
        let i = choose|i: int| 0 <= i < b.len() && b[i] == row;
        assert(all[a.len() + i] == row);
    }
    if all.contains(row) {
        let i = choose|i: int| 0 <= i < all.len() && all[i] == row;
        if i < a.len() {
            assert(a[i] == row);
        } else {
            assert(b[i - a.len()] == row);
        }
    }
}

proof fn lemma_gathered_each_once(
    states: Seq<CoinbaseModel>,
    windows: Seq<WindowModel>,
    handed: Seq<Seq<FlushModel>>,
    n: int,
)
    requires
        takes_up(states[0].ledger),
        runs_over(states, windows, handed),
        is_answered(states, windows),
        0 <= n <= windows.len(),
    ensures
        strictly_ascending(gathered(states, windows, handed, n)),
    decreases n,
{
    if n > 0 {
        let m = states[n - 1];
        let w = windows[n - 1];
        let before = gathered(states, windows, handed, n - 1);
        let sorted = order_taken(m, states[n], w, handed[n - 1]);
        let all = before + sorted;
        lemma_gathered_each_once(states, windows, handed, n - 1);
        lemma_run_so_far(states, windows, handed, n - 1);
        assert(can_take(m, w));
        lemma_window(m, states[n], w, handed[n - 1]);
        lemma_one_row_per_instant(sorted, w.candles, w.numbers, m.ledger, m.up_to);
        lemma_stretches(states[0].ledger, m.ledger, before, sorted);
        assert forall|i: int, j: int| 0 <= i < j < all.len() implies (
        #[trigger] all[i]).ts_micros < (#[trigger] all[j]).ts_micros by {
            let k = before.len() as int;
            if j < k {
                assert(all[i] == before[i] && all[j] == before[j]);
            } else if i >= k {
                assert(all[i] == sorted[i - k] && all[j] == sorted[j - k]);
            } else {
                assert(all[i].ts_micros <= all[k - 1].ts_micros);
                assert(all[k].ts_micros <= all[j].ts_micros);
                assert(all[k - 1] == before.last() && all[k] == sorted[0]);
            }
        }
    }
}

/// A row of a window is that of a candle that makes one from the start of the
/// run.
proof fn lemma_row_is_of_candle(
    states: Seq<CoinbaseModel>,
    windows: Seq<WindowModel>,
    handed: Seq<Seq<FlushModel>>,
    w: int,
    row: TradeRow,
) -> (k: int)
    requires
        takes_up(states[0].ledger),
        runs_over(states, windows, handed),
        0 <= w < windows.len(),
        window_rows(states[w], windows[w]).contains(row),
    ensures
        0 <= k < windows[w].candles.len(),
        makes_row(
            windows[w].candles[k],
            windows[w].numbers[k],
            states[0].ledger,
            states[0].up_to,
        ),
        row == coinbase_row(windows[w].candles[k], windows[w].numbers[k]),
        row.ts_micros == candle_micros(windows[w].candles[k]),
        is_of_candle(row, windows, states[0].ledger, states[0].up_to),
{
    let (m, window) = (states[w], windows[w]);
    assert(can_take(m, window));
    lemma_run_so_far(states, windows, handed, w);
    lemma_cursor_moves_on(states, windows, handed, 0, w);
    lemma_rows_of_candles(window.candles, window.numbers, m.ledger, m.up_to);
    let k = choose|k: int|
        0 <= k < window.candles.len() && makes_row(
            #[trigger] window.candles[k],
            window.numbers[k],
            m.ledger,
            m.up_to,
        ) && row == coinbase_row(window.candles[k], window.numbers[k]);
    let ts = candle_micros(window.candles[k]);
    assert(!m.ledger.covers(ts));
    assert(!states[0].ledger.covers(ts));
    assert(makes_row(
        windows[w].candles[k],
        windows[w].numbers[k],
        states[0].ledger,
        states[0].up_to,
    ));
    k
}

/// Windows follow one another.
proof fn lemma_windows_follow(
    states: Seq<CoinbaseModel>,
    windows: Seq<WindowModel>,
    handed: Seq<Seq<FlushModel>>,
    v: int,
    w: int,
)
    requires
        runs_over(states, windows, handed),
        is_answered(states, windows),
        0 <= v < w < windows.len(),
    ensures
        states[v].window_end() <= states[w].window_start,
    decreases w - v,
{
    assert(can_take(states[w - 1], windows[w - 1]));
    if v < w - 1 {
        lemma_windows_follow(states, windows, handed, v, w - 1);
        assert(!states[w - 1].done());
    }
}

/// A candle that makes a row from the start of the run has a row of its instant.
proof fn lemma_candle_has_row(
    states: Seq<CoinbaseModel>,
    windows: Seq<WindowModel>,
    handed: Seq<Seq<FlushModel>>,
    w: int,
    k: int,
) -> (row: TradeRow)
    requires
        takes_up(states[0].ledger),
        runs_over(states, windows, handed),
        is_answered(states, windows),
        0 <= w < windows.len(),
        0 <= k < windows[w].candles.len(),
        makes_row(
            windows[w].candles[k],
            windows[w].numbers[k],
            states[0].ledger,
            states[0].up_to,
        ),
    ensures
        gathered(states, windows, handed, windows.len() as int).contains(row),
        row.ts_micros == candle_micros(windows[w].candles[k]),
{
    let n = windows.len() as int;
    let (m, window) = (states[w], windows[w]);
    let ts = candle_micros(window.candles[k]);
    assert(can_take(m, window));
    lemma_run_so_far(states, windows, handed, w);
    lemma_gathered_rows(states, windows, handed, n);
    if m.ledger.covers(ts) {
        let before = gathered(states, windows, handed, w);
        let row = before.last();
        lemma_gathered_rows(states, windows, handed, w);
        assert(before.len() > 0);
        assert(before.contains(row));
        let v = choose|v: int|
            0 <= v < w && window_rows(states[v], #[trigger] windows[v]).contains(row);
        let q = lemma_row_is_of_candle(states, windows, handed, v, row);
        lemma_windows_follow(states, windows, handed, v, w);
        assert(candle_secs(windows[v].candles[q]) <= states[v].window_end());
        assert(states[w].window_start <= candle_secs(windows[w].candles[k]));
        assert(window_rows(states[v], windows[v]).contains(row));
        row
    } else {
        let row = coinbase_row(window.candles[k], window.numbers[k]);
        lemma_rows_of_candles(window.candles, window.numbers, m.ledger, m.up_to);
        assert(makes_row(window.candles[k], window.numbers[k], m.ledger, m.up_to));
        assert(window_rows(m, windows[w]).contains(row));
        row
    }
}

/// Every candle in the range behind the saved cursor is kept once: over windows
/// that answer its requests, a run hands out the rows of the cursor's month and
/// then rows that lie each behind the one before it. Each of them is that of a
/// candle, and every candle that has a positive price and volume has one of its
/// instant; that is its own row where candles of one instant agree.
pub proof fn law_every_candle_is_kept_once(
    states: Seq<CoinbaseModel>,
    windows: Seq<WindowModel>,
    handed: Seq<Seq<FlushModel>>,
)
    requires
        takes_up(states[0].ledger),
        runs_over(states, windows, handed),
        is_answered(states, windows),
    ensures
        ({
            let (start, up_to) = (states[0].ledger, states[0].up_to);
            let added = rows_added(states, handed);
            &&& rows_of(all_handed(states, handed)) == start.buf + added
            &&& strictly_ascending(added)
            &&& forall|i: int|
                0 <= i < added.len() ==> is_of_candle(#[trigger] added[i], windows, start, up_to)
            &&& forall|w: int, k: int|
                0 <= w < windows.len() && 0 <= k < windows[w].candles.len() && makes_row(
                    #[trigger] windows[w].candles[k],
                    windows[w].numbers[k],
                    start,
                    up_to,
                ) ==> has_instant(added, candle_micros(windows[w].candles[k])) && (agree(windows)
                    ==> added.contains(coinbase_row(windows[w].candles[k], windows[w].numbers[k])))
        }),
{
    let n = windows.len() as int;
    let (start, up_to) = (states[0].ledger, states[0].up_to);
    let rows = gathered(states, windows, handed, n);
    let added = rows_added(states, handed);
    lemma_whole_run(states, windows, handed);
    assert(added =~= rows);
    lemma_gathered_each_once(states, windows, handed, n);
    lemma_gathered_rows(states, windows, handed, n);
    assert forall|i: int| 0 <= i < added.len() implies is_of_candle(
        #[trigger] added[i],
        windows,
        start,
        up_to,
    ) by {
        assert(rows.contains(rows[i]));
        let w = choose|w: int|
            0 <= w < n && window_rows(states[w], #[trigger] windows[w]).contains(rows[i]);
        lemma_row_is_of_candle(states, windows, handed, w, rows[i]);
    }
    assert forall|w: int, k: int|
        0 <= w < windows.len() && 0 <= k < windows[w].candles.len() && makes_row(
            #[trigger] windows[w].candles[k],
            windows[w].numbers[k],
            start,
            up_to,
        ) implies has_instant(added, candle_micros(windows[w].candles[k])) && (agree(windows)
        ==> added.contains(coinbase_row(windows[w].candles[k], windows[w].numbers[k]))) by {
        let row = lemma_candle_has_row(states, windows, handed, w, k);
        let i = choose|i: int| 0 <= i < rows.len() && rows[i] == row;
        assert(added[i].ts_micros == candle_micros(windows[w].candles[k]));
        if agree(windows) {
            let v = choose|v: int|
                0 <= v < n && window_rows(states[v], #[trigger] windows[v]).contains(row);
            let q = lemma_row_is_of_candle(states, windows, handed, v, row);
            assert(windows[w].numbers[k] == windows[v].numbers[q]);
            assert(row == coinbase_row(windows[w].candles[k], windows[w].numbers[k]));
        }
    }
}

/// Which candle each row is that of.
proof fn lemma_rows_from_candles(
    candles: Seq<CbCandle>,
    numbers: Seq<QuoteNumbers>,
    ledger: LedgerModel,
    up_to: int,
) -> (at: Seq<int>)
    requires
        candles.len() == numbers.len(),
    ensures
        ({
            let rows = coinbase_rows(candles, numbers, ledger, up_to);
            &&& at.len() == rows.len()
            &&& forall|i: int, j: int| 0 <= i < j < at.len() ==> #[trigger] at[i] < #[trigger] at[j]
            &&& forall|i: int|
                0 <= i < at.len() ==> {
                    let k = #[trigger] at[i];
                    0 <= k < candles.len() && makes_row(candles[k], numbers[k], ledger, up_to)
                        && rows[i] == coinbase_row(candles[k], numbers[k])
                }
            &&& forall|k: int|
                0 <= k < candles.len() && makes_row(candles[k], numbers[k], ledger, up_to)
                    ==> #[trigger] at.contains(k)
        }),
    decreases candles.len(),
{
    if candles.len() == 0 {
        Seq::empty()
    } else {
        let last = candles.len() - 1;
        let before = lemma_rows_from_candles(candles.drop_last(), numbers.drop_last(), ledger, up_to);
        let earlier = coinbase_rows(candles.drop_last(), numbers.drop_last(), ledger, up_to);
        let rows = coinbase_rows(candles, numbers, ledger, up_to);
        let at = if rows.len() > earlier.len() {
            before.push(last)
        } else {
            before
        };
        assert forall|i: int| 0 <= i < at.len() implies {
            let k = #[trigger] at[i];
            0 <= k < candles.len() && makes_row(candles[k], numbers[k], ledger, up_to)
                && rows[i] == coinbase_row(candles[k], numbers[k])
        } by {
            if i < before.len() {
                assert(at[i] == before[i]);
                assert(rows[i] == earlier[i]);
            }
        }
        assert forall|i: int, j: int| 0 <= i < j < at.len() implies #[trigger] at[i]
            < #[trigger] at[j] by {
            assert(at[i] == before[i]);
            if j < before.len() {
                assert(at[j] == before[j]);
            }
        }
        assert forall|k: int|
            0 <= k < candles.len()
                && makes_row(candles[k], numbers[k], ledger, up_to) implies #[trigger] at.contains(k) by {
            if k < last {
                assert(before.contains(k));
                let i = choose|i: int| 0 <= i < before.len() && before[i] == k;
                assert(at[i] == k);
            } else {
                assert(at[at.len() - 1] == k);
            }
        }
        at
    }
}

/// Every row of a window is that of one candle of it, field by field: the
/// candle's second in microseconds, or zero where its text is no number; its
/// price and its volume. No candle is left out that lies behind the cursor and
/// before the end of the range and has a positive price and volume.
pub proof fn law_every_row_is_a_candle_of_the_window(
    candles: Seq<CbCandle>,
    numbers: Seq<QuoteNumbers>,
    ledger: LedgerModel,
    up_to: int,
) -> (at: Seq<int>)
    requires
        candles.len() == numbers.len(),
        all_fit(candles),
    ensures
        ({
            let rows = coinbase_rows(candles, numbers, ledger, up_to);
            &&& at.len() == rows.len()
            &&& forall|i: int, j: int| 0 <= i < j < at.len() ==> #[trigger] at[i] < #[trigger] at[j]
            &&& forall|i: int|
                0 <= i < at.len() ==> {
                    let k = #[trigger] at[i];
                    let secs = (match integer_value(candles[k].start@) {
                        Some(t) => if i64::MIN <= t <= i64::MAX {
                            t
                        } else {
                            0
                        },
                        None => 0,
                    });
                    &&& 0 <= k < candles.len()
                    &&& rows[i].ts_micros == secs * 1_000_000
                    &&& rows[i].ts_micros < up_to
                    &&& ledger.last_ts matches Some(c) ==> c < rows[i].ts_micros
                    &&& rows[i].price == numbers[k].price
                    &&& rows[i].quantity == numbers[k].quantity
                    &&& rows[i].side is None
                    &&& rows[i].exchange@ == "coinbase"@
                    &&& !numbers[k].price.at_most_zero()
                    &&& !numbers[k].quantity.at_most_zero()
                }
            &&& forall|k: int|
                0 <= k < candles.len() && ({
                    let secs = (match integer_value(candles[k].start@) {
                        Some(t) => if i64::MIN <= t <= i64::MAX {
                            t
                        } else {
                            0
                        },
                        None => 0,
                    });
                    secs * 1_000_000 < up_to && (ledger.last_ts matches Some(c) ==> c < secs
                        * 1_000_000)
                }) && !numbers[k].price.at_most_zero() && !numbers[k].quantity.at_most_zero()
                    ==> #[trigger] at.contains(k)
        }),
{
    let at = lemma_rows_from_candles(candles, numbers, ledger, up_to);
    assert forall|i: int| 0 <= i < at.len() implies i64::MIN <= candle_micros(
        candles[#[trigger] at[i]],
    ) <= i64::MAX by {
        let k = at[i];
        assert(candles[k] == candles[k]);
    }
    assert forall|k: int|
        0 <= k < candles.len() && ({
            let secs = (match integer_value(candles[k].start@) {
                        Some(t) => if i64::MIN <= t <= i64::MAX {
                            t
                        } else {
                            0
                        },
                        None => 0,
                    });
            secs * 1_000_000 < up_to && (ledger.last_ts matches Some(c) ==> c < secs * 1_000_000)
        }) && !numbers[k].price.at_most_zero()
            && !numbers[k].quantity.at_most_zero() implies #[trigger] at.contains(k) by {
        assert(makes_row(candles[k], numbers[k], ledger, up_to));
    }
    at
}

/// A window starts where the one before it ended, spans 300 minutes at most and
/// never reaches behind the end of the range; only the last one is shorter.
pub proof fn law_windows_span_300_minutes_at_most(m: CoinbaseModel)
    requires
        !m.done(),
    ensures
        m.window_start < m.window_end() <= m.end_secs,
        m.window_end() <= m.window_start + 18_000,
        m.window_end() < m.end_secs ==> m.window_end() == m.window_start + 18_000,
        !m.stopped,
        m.window_start < m.end_secs,
{
}

/// A run goes on as long as its windows have not come to the end of the range and
/// no answer has stopped it.
pub proof fn law_a_run_is_done_at_the_end_or_when_stopped(m: CoinbaseModel)
    ensures
        m.done() <==> m.stopped || m.end_secs <= m.window_start,
{
}

/// A window leaves the range as it was and leads on to its own end; its rows are
/// all gathered, none of those gathered before is lost, and the cursor moves on to
/// the last of them.
pub proof fn law_a_window_loses_no_row(
    before: CoinbaseModel,
    after: CoinbaseModel,
    w: WindowModel,
    handed_out: Seq<FlushModel>,
)
    requires
        takes_up(before.ledger),
        can_take(before, w),
        takes_window(before, after, window_rows(before, w), handed_out),
    ensures
        after.window_start == before.window_end(),
        after.end_secs == before.end_secs,
        after.up_to == before.up_to,
        after.stopped == before.stopped,
        exists|sorted: Seq<TradeRow>|
            {
                &&& rows_of(handed_out) + after.ledger.buf == before.ledger.buf + sorted
                &&& #[trigger] sorted.to_multiset() == window_rows(before, w).to_multiset()
                &&& forall|i: int, j: int|
                    0 <= i < j < sorted.len() ==> (#[trigger] sorted[i]).ts_micros <= (
                    #[trigger] sorted[j]).ts_micros
            },
        after.ledger.buf.len() > 0 ==> after.ledger.last_ts == Some(
            after.ledger.buf.last().ts_micros,
        ),
{
    lemma_window(before, after, w, handed_out);
    let sorted = order_taken(before, after, w, handed_out);
    law_no_row_is_lost(before.ledger, sorted);
    let whole = before.ledger.push_all(sorted).settle();
    assert(rows_of(before.ledger.written) =~= Seq::<TradeRow>::empty());
    assert(rows_held(before.ledger) =~= before.ledger.buf);
    assert(rows_held(whole) == rows_of(handed_out) + after.ledger.buf);
    assert(sorted.to_multiset() == window_rows(before, w).to_multiset());
}

} // verus!
