//! Bitstamp's history, in candles of one minute.
//!
//! Candles are asked for by page, from an instant in seconds on:
//!
//! ```text
//! GET https://www.bitstamp.net/api/v2/ohlc/btcusd/?step=60&limit=1000&start={secs}
//! ```
//!
//! Each candle becomes one row with its closing price and its volume. Candles
//! have no taker side.

use vstd::prelude::*;

use crate::calendar::placeable;
use crate::historical::cursor::Cursor;
use crate::historical::exchange_floor;
use crate::historical::schema::{ascending, TradeRow};
use crate::historical::sources::laws::{
    all_new, all_placed, law_each_month_is_written_once, law_no_row_is_lost, lemma_new_rows,
    lemma_rows_stay_on_course, lemma_settled_step, months_in_order, page_rows, rows_held,
    settled_run, strictly_ascending, takes_up,
};
use crate::historical::sources::ledger::{
    all_labelled, flush_models, started, FlushModel, LedgerModel, MonthFlush, MonthLedger,
};
use crate::historical::sources::stored::{
    in_good_order, law_adjoining_runs_make_one, law_storing_again_changes_nothing,
    law_storing_pages_again_changes_nothing, StoreModel,
};
use crate::historical::sources::{
    first_instant, later_of, secs_of, to_secs, HistoricalFetcher, QuoteNumbers,
};
use crate::text::{bounded_value, integer_text, integer_value, parse_i64, write_i64};

verus! {

/// Seconds that a candle spans.
pub const STEP_SECS: i64 = 60;

/// A candle of an answer. The texts of its numbers are kept as they came.
pub struct OhlcEntry {
    pub timestamp: String,
    pub close: String,
    pub volume: String,
}

/// What became of a request.
pub enum BitstampReply {
    /// No answer came, or one with a status other than success.
    Unavailable,
    /// An answer came that is not of the expected form.
    Unreadable,
    /// The candles of a page.
    Page(Vec<OhlcEntry>),
}

/// The instant of a candle in seconds, or zero where its text is no number.
pub open spec fn entry_secs(e: OhlcEntry) -> int {
    match bounded_value(e.timestamp@, i64::MIN as int, i64::MAX as int) {
        Some(n) => n,
        None => 0,
    }
}

/// Whether a candle lies in a range of seconds.
pub open spec fn in_range(e: OhlcEntry, from: int, up_to: int) -> bool {
    from <= entry_secs(e) < up_to
}

/// The latest second of the candles in the range, or the start of the range
/// where there are none.
pub open spec fn latest_secs(entries: Seq<OhlcEntry>, from: int, up_to: int) -> int
    decreases entries.len(),
{
    if entries.len() == 0 {
        from
    } else {
        let before = latest_secs(entries.drop_last(), from, up_to);
        let e = entries.last();
        if in_range(e, from, up_to) && entry_secs(e) > before {
            entry_secs(e)
        } else {
            before
        }
    }
}

/// The row of a candle.
pub open spec fn bitstamp_row(e: OhlcEntry, n: QuoteNumbers) -> TradeRow {
    TradeRow {
        ts_micros: (entry_secs(e) * 1_000_000) as i64,
        price: n.price,
        quantity: n.quantity,
        side: None,
        exchange: "bitstamp",
    }
}

/// The rows of the candles in the range, without those that have no positive
/// price.
pub open spec fn bitstamp_rows(
    entries: Seq<OhlcEntry>,
    numbers: Seq<QuoteNumbers>,
    from: int,
    up_to: int,
) -> Seq<TradeRow>
    decreases entries.len(),
{
    if entries.len() == 0 {
        Seq::empty()
    } else {
        let before = bitstamp_rows(entries.drop_last(), numbers.drop_last(), from, up_to);
        let (e, n) = (entries.last(), numbers.last());
        if in_range(e, from, up_to) && !n.price.at_most_zero() {
            before.push(bitstamp_row(e, n))
        } else {
            before
        }
    }
}

/// Reads the instant of a candle.
fn read_secs(e: &OhlcEntry) -> (secs: i64)
    ensures
        secs == entry_secs(*e),
{
    match parse_i64(e.timestamp.as_str()) {
        Some(n) => n,
        None => 0,
    }
}

/// Makes the rows of a page, and finds its latest second.
pub fn collect_rows(
    entries: &Vec<OhlcEntry>,
    numbers: &Vec<QuoteNumbers>,
    from_secs: i64,
    up_to_secs: i64,
) -> (r: (Vec<TradeRow>, i64))
    requires
        entries@.len() == numbers@.len(),
        0 <= from_secs,
        up_to_secs * 1_000_000 <= i64::MAX,
    ensures
        r.0@ == bitstamp_rows(entries@, numbers@, from_secs as int, up_to_secs as int),
        r.1 == latest_secs(entries@, from_secs as int, up_to_secs as int),
        r.0@.len() <= entries@.len(),
        r.1 == from_secs || r.1 < up_to_secs,
{
    let mut rows: Vec<TradeRow> = Vec::new();
    let mut latest: i64 = from_secs;
    assert(entries@.take(0) =~= Seq::<OhlcEntry>::empty());
    for i in 0..entries.len()
        invariant
            entries@.len() == numbers@.len(),
            0 <= from_secs,
            up_to_secs * 1_000_000 <= i64::MAX,
            rows@ == bitstamp_rows(
                entries@.take(i as int),
                numbers@.take(i as int),
                from_secs as int,
                up_to_secs as int,
            ),
            latest == latest_secs(entries@.take(i as int), from_secs as int, up_to_secs as int),
            rows@.len() <= i,
            latest == from_secs || latest < up_to_secs,
    {
        assert(entries@.take(i + 1).drop_last() =~= entries@.take(i as int));
        assert(numbers@.take(i + 1).drop_last() =~= numbers@.take(i as int));
        let secs: i64 = read_secs(&entries[i]);
        if from_secs <= secs && secs < up_to_secs {
            if secs > latest {
                latest = secs;
            }
            let n = numbers[i];
            if !n.price.is_at_most_zero() {
                rows.push(
                    TradeRow {
                        ts_micros: secs * 1_000_000,
                        price: n.price,
                        quantity: n.quantity,
                        side: None,
                        exchange: "bitstamp",
                    },
                );
            }
        }
    }
    assert(entries@.take(entries@.len() as int) =~= entries@);
    assert(numbers@.take(numbers@.len() as int) =~= numbers@);
    (rows, latest)
}

/// A run over Bitstamp's history.
pub struct BitstampRun {
    ledger: MonthLedger,
    cursor_secs: i64,
    up_to_secs: i64,
    done: bool,
}

/// The state of a run: its ledger, the second to ask for next, the end of the
/// range, and whether there is nothing left to ask for.
pub struct BitstampModel {
    pub ledger: LedgerModel,
    pub cursor_secs: int,
    pub up_to_secs: int,
    pub done: bool,
}

impl View for BitstampRun {
    type V = BitstampModel;

    closed spec fn view(&self) -> BitstampModel {
        BitstampModel {
            ledger: self.ledger@,
            cursor_secs: self.cursor_secs as int,
            up_to_secs: self.up_to_secs as int,
            done: self.done,
        }
    }
}

impl BitstampModel {
    /// Whether the seconds of the state can be turned into microseconds, and the
    /// run is done where it has reached the end of the range.
    pub open spec fn wf(self) -> bool {
        &&& 0 <= self.cursor_secs
        &&& self.up_to_secs * 1_000_000 <= i64::MAX
        &&& self.cursor_secs >= self.up_to_secs ==> self.done
    }

    /// The state behind a page. The rows in the range are offered to the ledger,
    /// and its cursor is moved on behind them. The run goes on one step behind
    /// the latest candle; it is done when that reaches the end of the range, or
    /// when the page leads no further.
    pub open spec fn take(
        self,
        entries: Seq<OhlcEntry>,
        numbers: Seq<QuoteNumbers>,
    ) -> BitstampModel {
        let (from, up_to) = (self.cursor_secs, self.up_to_secs);
        let latest = latest_secs(entries, from, up_to);
        let stuck = latest <= from;
        BitstampModel {
            ledger: self.ledger.offer_all(bitstamp_rows(entries, numbers, from, up_to)).settle(),
            cursor_secs: if stuck {
                from
            } else {
                latest + STEP_SECS
            },
            done: stuck || latest + STEP_SECS >= up_to,
            ..self
        }
    }

    /// The same state with nothing handed out yet.
    pub open spec fn afresh(self) -> BitstampModel {
        BitstampModel { ledger: self.ledger.afresh(), ..self }
    }
}

/// The source of Bitstamp's history.
pub struct BitstampFetcher {
    data_root: String,
}

impl HistoricalFetcher for BitstampFetcher {
    open spec fn name(&self) -> Seq<char> {
        "bitstamp"@
    }

    fn exchange(&self) -> (name: &'static str)
        ensures
            name@ == "bitstamp"@,
    {
        "bitstamp"
    }
}

impl BitstampFetcher {
    /// The directory that the history is kept under.
    pub closed spec fn root(self) -> Seq<char> {
        self.data_root@
    }

    /// A source that keeps its history under the given directory.
    pub fn new(data_root: String) -> (f: Self)
        ensures
            f.root() == data_root@,
    {
        BitstampFetcher { data_root }
    }

    /// The directory that the history is kept under.
    pub fn data_root(&self) -> (root: &str)
        ensures
            root@ == self.root(),
    {
        self.data_root.as_str()
    }

    /// Starts a run over the range from `resume_from_micros` up to, but not
    /// with, `up_to_micros`. The seed is what the shard of the cursor's month
    /// holds already.
    pub fn fetch_range(
        &self,
        resume_from_micros: i64,
        up_to_micros: i64,
        cursor: Cursor,
        key: Option<(i32, u32)>,
        seed: Vec<TradeRow>,
    ) -> (run: BitstampRun)
        ensures
            ({
                let from = secs_of(first_instant(resume_from_micros as int, 1_483_228_800_000_000));
                run@ == (BitstampModel {
                    ledger: started(cursor, key, seed@),
                    cursor_secs: from,
                    up_to_secs: secs_of(up_to_micros as int),
                    done: from >= secs_of(up_to_micros as int),
                })
            }),
            run@.wf(),
    {
        proof {
            reveal_strlit("bitstamp");
            reveal_strlit("binance");
            assert("bitstamp"@.len() != "binance"@.len());
        }
        let start: i64 = later_of(resume_from_micros, exchange_floor("bitstamp"));
        let cursor_secs: i64 = to_secs(start);
        let up_to_secs: i64 = to_secs(up_to_micros);
        BitstampRun {
            ledger: MonthLedger::resume(cursor, key, seed),
            cursor_secs,
            up_to_secs,
            done: cursor_secs >= up_to_secs,
        }
    }
}

impl BitstampRun {
    /// Whether there is nothing left to ask for.
    pub fn is_done(&self) -> (r: bool)
        ensures
            r == self@.done,
    {
        self.done
    }

    /// The second to ask for next.
    pub fn cursor_secs(&self) -> (t: i64)
        ensures
            t == self@.cursor_secs,
    {
        self.cursor_secs
    }

    /// The end of the range, in seconds.
    pub fn up_to_secs(&self) -> (t: i64)
        ensures
            t == self@.up_to_secs,
    {
        self.up_to_secs
    }

    /// The run's ledger.
    pub fn ledger(&self) -> (l: &MonthLedger)
        ensures
            l@ == self@.ledger,
    {
        &self.ledger
    }

    /// The address to ask for the next page.
    pub fn request_url(&self) -> (url: String)
        ensures
            url@ == "https://www.bitstamp.net/api/v2/ohlc/btcusd/?step=60&limit=1000&start="@
                + integer_text(self@.cursor_secs),
    {
        let mut url =
            "https://www.bitstamp.net/api/v2/ohlc/btcusd/?step=60&limit=1000&start=".to_owned();
        url.append(write_i64(self.cursor_secs).as_str());
        url
    }

    /// Takes a reply in. A page's rows in the range are gathered, and complete
    /// months are handed out. The run goes on one step behind the latest candle;
    /// it is done when that reaches the end of the range, when the page leads no
    /// further, or when the answer cannot be read. What is gathered is kept.
    /// Where no answer came the same request is to be made again. A page that
    /// leaves the run unfinished moves it forward.
    pub fn take_reply(
        &mut self,
        reply: &BitstampReply,
        numbers: &Vec<QuoteNumbers>,
    ) -> (flushes: Vec<MonthFlush>)
        requires
            old(self)@.wf(),
            reply matches BitstampReply::Page(entries) ==> {
                &&& entries@.len() == numbers@.len()
                &&& old(self)@.ledger.has_room(entries@.len() as int)
                &&& old(self)@.ledger.can_offer(
                    bitstamp_rows(
                        entries@,
                        numbers@,
                        old(self)@.cursor_secs,
                        old(self)@.up_to_secs,
                    ),
                )
            },
        ensures
            final(self)@.wf(),
            reply is Page ==> final(self)@.done || final(self)@.cursor_secs > old(self)@.cursor_secs,
            match reply {
                BitstampReply::Unavailable => final(self)@ == old(self)@ && flushes@.len() == 0,
                BitstampReply::Unreadable => final(self)@ == (BitstampModel {
                    done: true,
                    ..old(self)@
                }) && flushes@.len() == 0,
                BitstampReply::Page(entries) => {
                    let after = old(self)@.take(entries@, numbers@);
                    &&& final(self)@ == after.afresh()
                    &&& flush_models(flushes@) == after.ledger.written
                    &&& all_labelled(flushes@)
                },
            },
    {
        match reply {
            BitstampReply::Unavailable => Vec::new(),
            BitstampReply::Unreadable => {
                self.done = true;
                Vec::new()
            },
            BitstampReply::Page(entries) => {
                let (rows, latest) = collect_rows(
                    entries,
                    numbers,
                    self.cursor_secs,
                    self.up_to_secs,
                );
                let flushes = self.ledger.offer_all(&rows);
                self.ledger.settle();
                if latest <= self.cursor_secs {
                    self.done = true;
                } else {
                    self.cursor_secs = latest + STEP_SECS;
                    self.done = self.cursor_secs >= self.up_to_secs;
                }
                flushes
            },
        }
    }

    /// Ends the run: hands out what is still gathered.
    pub fn finish(&mut self) -> (out: Option<MonthFlush>)
        requires
            old(self)@.ledger.has_room(0),
        ensures
            ({
                let after = old(self)@.ledger.flush();
                &&& final(self)@ == (BitstampModel { ledger: after.afresh(), ..old(self)@ })
                &&& match out {
                    Some(f) => after.written == seq![f@] && f.labelled(),
                    None => after.written == Seq::<FlushModel>::empty(),
                }
            }),
    {
        self.ledger.flush()
    }
}

/// Every row of a page that is kept lies in the range: not before its start,
/// and before its end.
pub proof fn law_rows_lie_in_the_range(
    entries: Seq<OhlcEntry>,
    numbers: Seq<QuoteNumbers>,
    from: int,
    up_to: int,
)
    requires
        entries.len() == numbers.len(),
        0 <= from,
        up_to * 1_000_000 <= i64::MAX,
    ensures
        forall|i: int|
            0 <= i < bitstamp_rows(entries, numbers, from, up_to).len() ==> from * 1_000_000 <= (
            #[trigger] bitstamp_rows(entries, numbers, from, up_to)[i]).ts_micros < up_to
                * 1_000_000,
    decreases entries.len(),
{
    if entries.len() > 0 {
        law_rows_lie_in_the_range(entries.drop_last(), numbers.drop_last(), from, up_to);
    }
}

// ── Whole runs ──────────────────────────────────────────────────────────────

/// Candles in a full page.
pub const PAGE_CANDLES: i64 = 1_000;

/// A page as it is taken in: its candles and their numbers.
pub struct PageModel {
    pub entries: Seq<OhlcEntry>,
    pub numbers: Seq<QuoteNumbers>,
}

/// The state behind the pages of a run.
pub open spec fn bitstamp_run(m: BitstampModel, pages: Seq<PageModel>) -> BitstampModel
    decreases pages.len(),
{
    if pages.len() == 0 {
        m
    } else {
        let page = pages.last();
        bitstamp_run(m, pages.drop_last()).take(page.entries, page.numbers)
    }
}

/// The row of the candle of a minute.
pub open spec fn minute_row(quotes: spec_fn(int) -> QuoteNumbers, secs: int) -> TradeRow {
    TradeRow {
        ts_micros: (secs * 1_000_000) as i64,
        price: quotes(secs).price,
        quantity: quotes(secs).quantity,
        side: None,
        exchange: "bitstamp",
    }
}

/// One row for every minute from one second up to, but not with, another.
pub open spec fn minute_rows(
    quotes: spec_fn(int) -> QuoteNumbers,
    from: int,
    to: int,
) -> Seq<TradeRow> {
    Seq::new(((to - from) / 60) as nat, |i: int| minute_row(quotes, from + 60 * i))
}

/// Whether a page holds the candles of the first thousand minutes from a second
/// on.
pub open spec fn answers(page: PageModel, quotes: spec_fn(int) -> QuoteNumbers, from: int) -> bool {
    &&& page.entries.len() == PAGE_CANDLES
    &&& page.numbers.len() == PAGE_CANDLES
    &&& forall|i: int|
        0 <= i < PAGE_CANDLES ==> entry_secs(#[trigger] page.entries[i]) == from + 60 * i
    &&& forall|i: int| 0 <= i < PAGE_CANDLES ==> #[trigger] page.numbers[i] == quotes(from + 60 * i)
}

/// Whether a run is served to its end: each page answers the request that the
/// run makes next, and behind the last there is nothing left to ask for.
pub open spec fn is_served(
    m: BitstampModel,
    pages: Seq<PageModel>,
    quotes: spec_fn(int) -> QuoteNumbers,
) -> bool {
    &&& forall|i: int|
        0 <= i < pages.len() ==> {
            let state = #[trigger] bitstamp_run(m, pages.take(i));
            !state.done && answers(pages[i], quotes, state.cursor_secs)
        }
    &&& bitstamp_run(m, pages).done
}

/// Whether every minute has a candle with a positive price.
pub open spec fn all_priced(quotes: spec_fn(int) -> QuoteNumbers) -> bool {
    forall|t: int| !(#[trigger] quotes(t)).price.at_most_zero()
}

/// Whether a range starts at a second that can be held and spans whole minutes.
pub open spec fn whole_minutes(from: int, to: int) -> bool {
    0 <= from && to * 1_000_000 <= i64::MAX && (to - from) % 60 == 0
}

/// How many of a page's candles lie before the end of the range.
spec fn in_page(from: int, to: int, n: int) -> int {
    if (to - from) / 60 < n {
        (to - from) / 60
    } else {
        n
    }
}

proof fn lemma_page(
    page: PageModel,
    quotes: spec_fn(int) -> QuoteNumbers,
    from: int,
    to: int,
    n: int,
)
    requires
        answers(page, quotes, from),
        all_priced(quotes),
        whole_minutes(from, to),
        from < to,
        0 <= n <= PAGE_CANDLES,
    ensures
        ({
            let k = in_page(from, to, n);
            &&& bitstamp_rows(page.entries.take(n), page.numbers.take(n), from, to) == minute_rows(
                quotes,
                from,
                from + 60 * k,
            )
            &&& latest_secs(page.entries.take(n), from, to) == if k == 0 {
                from
            } else {
                from + 60 * (k - 1)
            }
        }),
    decreases n,
{
    let k = in_page(from, to, n);
    let (e, q) = (page.entries.take(n), page.numbers.take(n));
    if n == 0 {
        assert(bitstamp_rows(e, q, from, to) =~= minute_rows(quotes, from, from));
    } else {
        lemma_page(page, quotes, from, to, n - 1);
        assert(e.drop_last() =~= page.entries.take(n - 1));
        assert(q.drop_last() =~= page.numbers.take(n - 1));
        assert(e.last() == page.entries[n - 1]);
        assert(q.last() == page.numbers[n - 1]);
        assert(entry_secs(e.last()) == from + 60 * (n - 1));
        if k == n {
            assert(minute_rows(quotes, from, from + 60 * k) =~= minute_rows(
                quotes,
                from,
                from + 60 * (k - 1),
            ).push(minute_row(quotes, from + 60 * (n - 1))));
        }
    }
}

proof fn lemma_minutes(quotes: spec_fn(int) -> QuoteNumbers, a: int, b: int, c: int)
    requires
        whole_minutes(a, b),
        whole_minutes(b, c),
        a <= b <= c,
    ensures
        minute_rows(quotes, a, b) + minute_rows(quotes, b, c) == minute_rows(quotes, a, c),
        strictly_ascending(minute_rows(quotes, a, c)),
        minute_rows(quotes, a, b).len() == (b - a) / 60,
        forall|i: int|
            0 <= i < minute_rows(quotes, a, c).len() ==> a * 1_000_000 <= (#[trigger] minute_rows(
                quotes,
                a,
                c,
            )[i]).ts_micros < c * 1_000_000,
{
    let (x, y, all) = (minute_rows(quotes, a, b), minute_rows(quotes, b, c), minute_rows(quotes, a, c));
    assert forall|i: int| 0 <= i < all.len() implies (#[trigger] all[i]).ts_micros == (a + 60 * i)
        * 1_000_000 && a + 60 * i < c by {}
    assert forall|i: int| 0 <= i < all.len() implies #[trigger] all[i] == (x + y)[i] by {
        if i >= x.len() {
            assert(y[i - x.len()] == minute_row(quotes, b + 60 * (i - x.len())));
            assert(b + 60 * (i - x.len()) == a + 60 * i);
        }
    }
    assert(x + y =~= all);
}

/// A run over an exchange that has one candle for every minute stores each minute
/// of the range once and in order: it ends with what it started with, and then
/// one row per minute.
pub proof fn law_a_run_stores_each_minute_once(
    m: BitstampModel,
    pages: Seq<PageModel>,
    quotes: spec_fn(int) -> QuoteNumbers,
)
    requires
        takes_up(m.ledger),
        whole_minutes(m.cursor_secs, m.up_to_secs),
        m.cursor_secs <= m.up_to_secs,
        m.done == (m.cursor_secs >= m.up_to_secs),
        all_priced(quotes),
        all_new(m.ledger, minute_rows(quotes, m.cursor_secs, m.up_to_secs)),
        is_served(m, pages, quotes),
    ensures
        ({
            let rows = minute_rows(quotes, m.cursor_secs, m.up_to_secs);
            let last = bitstamp_run(m, pages).ledger;
            &&& last == m.ledger.push_all(rows).settle()
            &&& rows_held(last) == rows_held(m.ledger) + rows
            &&& last.flush().written == m.ledger.offer_all(rows).flush().written
            &&& strictly_ascending(rows)
        }),
{
    let (from, to) = (m.cursor_secs, m.up_to_secs);
    let rows = minute_rows(quotes, from, to);
    lemma_run_so_far(m, pages, quotes, pages.len() as int);
    assert(pages.take(pages.len() as int) =~= pages);
    lemma_minutes(quotes, from, from, to);
    assert(ascending(rows));
    lemma_new_rows(m.ledger, rows);
    law_no_row_is_lost(m.ledger, rows);
}

/// Part of the way through a run that is served, every minute up to the next
/// request is stored; when there is nothing left to ask for, every minute is.
proof fn lemma_run_so_far(
    m: BitstampModel,
    pages: Seq<PageModel>,
    quotes: spec_fn(int) -> QuoteNumbers,
    n: int,
)
    requires
        takes_up(m.ledger),
        whole_minutes(m.cursor_secs, m.up_to_secs),
        m.cursor_secs <= m.up_to_secs,
        m.done == (m.cursor_secs >= m.up_to_secs),
        all_priced(quotes),
        all_new(m.ledger, minute_rows(quotes, m.cursor_secs, m.up_to_secs)),
        is_served(m, pages, quotes),
        0 <= n <= pages.len(),
    ensures
        ({
            let state = bitstamp_run(m, pages.take(n));
            let at = if state.done {
                m.up_to_secs
            } else {
                state.cursor_secs
            };
            &&& state.up_to_secs == m.up_to_secs
            &&& m.cursor_secs <= at <= m.up_to_secs
            &&& !state.done ==> at < m.up_to_secs
            &&& (at - m.cursor_secs) % 60 == 0
            &&& state.ledger == m.ledger.push_all(minute_rows(quotes, m.cursor_secs, at)).settle()
        }),
    decreases n,
{
    let (from, to) = (m.cursor_secs, m.up_to_secs);
    if n == 0 {
        assert(pages.take(0) =~= Seq::<PageModel>::empty());
        assert(minute_rows(quotes, from, from) =~= Seq::<TradeRow>::empty());
    } else {
        lemma_run_so_far(m, pages, quotes, n - 1);
        assert(pages.take(n).drop_last() =~= pages.take(n - 1));
        let state = bitstamp_run(m, pages.take(n - 1));
        let page = pages[n - 1];
        assert(pages.take(n).last() == page);
        assert(!state.done && answers(page, quotes, state.cursor_secs));
        let at = state.cursor_secs;
        assert((to - at) % 60 == 0);
        lemma_full_page(page, quotes, at, to);
        let next = at + 60 * in_page(at, to, PAGE_CANDLES as int);
        assert((next - from) % 60 == 0);
        lemma_next_minutes(m.ledger, quotes, from, at, next, to);
    }
}

/// What the run takes of a page that answers its request.
proof fn lemma_full_page(page: PageModel, quotes: spec_fn(int) -> QuoteNumbers, at: int, to: int)
    requires
        answers(page, quotes, at),
        all_priced(quotes),
        whole_minutes(at, to),
        at < to,
    ensures
        ({
            let next = at + 60 * in_page(at, to, PAGE_CANDLES as int);
            &&& at < next <= to
            &&& (next - at) % 60 == 0
            &&& bitstamp_rows(page.entries, page.numbers, at, to) == minute_rows(quotes, at, next)
            &&& latest_secs(page.entries, at, to) == next - 60
        }),
{
    lemma_page(page, quotes, at, to, PAGE_CANDLES as int);
    assert(page.entries.take(PAGE_CANDLES as int) =~= page.entries);
    assert(page.numbers.take(PAGE_CANDLES as int) =~= page.numbers);
}

/// Offering the minutes of the next page leads where offering all minutes up to
/// its end does.
proof fn lemma_next_minutes(
    l: LedgerModel,
    quotes: spec_fn(int) -> QuoteNumbers,
    from: int,
    at: int,
    next: int,
    to: int,
)
    requires
        takes_up(l),
        from <= at <= next <= to,
        whole_minutes(from, at),
        whole_minutes(at, next),
        whole_minutes(next, to),
        whole_minutes(from, next),
        all_new(l, minute_rows(quotes, from, to)),
    ensures
        l.push_all(minute_rows(quotes, from, at)).settle().offer_all(
            minute_rows(quotes, at, next),
        ).settle() == l.push_all(minute_rows(quotes, from, next)).settle(),
{
    let all = minute_rows(quotes, from, to);
    lemma_minutes(quotes, from, at, next);
    lemma_minutes(quotes, from, next, to);
    let (a, b) = (minute_rows(quotes, from, at), minute_rows(quotes, at, next));
    let stretch = minute_rows(quotes, from, next);
    assert forall|i: int| 0 <= i < stretch.len() implies placeable(
        (#[trigger] stretch[i]).ts_micros as int,
    ) && !l.covers(stretch[i].ts_micros as int) by {
        assert(stretch[i] == all[i]);
    }
    if a.len() > 0 && b.len() > 0 {
        assert(a.last() == stretch[a.len() - 1]);
        assert(b[0] == stretch[a.len() as int]);
    }
    lemma_settled_step(l, a, b);
}

/// Adjoining ranges make one: fetching a range up to some minute and then the
/// range from it on leaves behind what fetching both as one range does. Every
/// shard holds the same rows, one per minute, and the saved cursor stands at the
/// same timestamp.
pub proof fn law_adjoining_ranges_make_one(
    a: int,
    b: int,
    c: int,
    quotes: spec_fn(int) -> QuoteNumbers,
    first: BitstampModel,
    first_pages: Seq<PageModel>,
    second: BitstampModel,
    second_pages: Seq<PageModel>,
    whole: BitstampModel,
    whole_pages: Seq<PageModel>,
)
    requires
        a <= b <= c,
        whole_minutes(a, b),
        whole_minutes(b, c),
        all_priced(quotes),
        all_placed(minute_rows(quotes, a, c)),
        starts_over(first, StoreModel::blank(), a, b),
        is_served(first, first_pages, quotes),
        starts_over(second, store_after(StoreModel::blank(), first, first_pages), b, c),
        is_served(second, second_pages, quotes),
        starts_over(whole, StoreModel::blank(), a, c),
        is_served(whole, whole_pages, quotes),
    ensures
        store_after(
            store_after(StoreModel::blank(), first, first_pages),
            second,
            second_pages,
        ).same_rows(store_after(StoreModel::blank(), whole, whole_pages)),
        rows_held(bitstamp_run(whole, whole_pages).ledger) == minute_rows(quotes, a, c),
{
    let blank = StoreModel::blank();
    let (x, y, all) = (minute_rows(quotes, a, b), minute_rows(quotes, b, c), minute_rows(quotes, a, c));
    let once = store_after(blank, first, first_pages);
    lemma_two_stretches(quotes, a, b, c);
    lemma_stored_minutes(blank, first, first_pages, quotes, a, b);
    lemma_stored_minutes(blank, whole, whole_pages, quotes, a, c);
    lemma_cursor_behind_minutes(quotes, a, b, c);
    lemma_stored_minutes(once, second, second_pages, quotes, b, c);
    law_adjoining_runs_make_one(blank, x, y);
    assert(rows_held(blank.reopen()) + all =~= all);
}

/// Two adjoining stretches of minutes are one stretch in the order of time, with
/// all of the first before the second.
proof fn lemma_two_stretches(quotes: spec_fn(int) -> QuoteNumbers, a: int, b: int, c: int)
    requires
        a <= b <= c,
        whole_minutes(a, b),
        whole_minutes(b, c),
        all_placed(minute_rows(quotes, a, c)),
    ensures
        ({
            let (x, y) = (minute_rows(quotes, a, b), minute_rows(quotes, b, c));
            &&& x + y == minute_rows(quotes, a, c)
            &&& whole_minutes(a, c)
            &&& ascending(x)
            &&& ascending(y)
            &&& ascending(x + y)
            &&& all_placed(x)
            &&& all_placed(y)
            &&& x.len() > 0 && y.len() > 0 ==> x.last().ts_micros < y[0].ts_micros
            &&& forall|i: int| 0 <= i < y.len() ==> b * 1_000_000 <= (#[trigger] y[i]).ts_micros
            &&& forall|i: int| 0 <= i < x.len() ==> (#[trigger] x[i]).ts_micros < b * 1_000_000
        }),
{
    let (x, y, all) = (minute_rows(quotes, a, b), minute_rows(quotes, b, c), minute_rows(quotes, a, c));
    lemma_minutes(quotes, a, b, c);
    lemma_minutes(quotes, b, b, c);
    lemma_minutes(quotes, a, a, b);
    assert forall|i: int| 0 <= i < x.len() implies #[trigger] x[i] == all[i] by {
        assert((x + y)[i] == x[i]);
    }
    assert forall|i: int| 0 <= i < y.len() implies #[trigger] y[i] == all[x.len() + i] by {
        assert((x + y)[x.len() + i] == y[i]);
    }
}

/// A run over a range that is served to its end leaves the store as if its
/// minutes had been offered in one go.
proof fn lemma_stored_minutes(
    store: StoreModel,
    m: BitstampModel,
    pages: Seq<PageModel>,
    quotes: spec_fn(int) -> QuoteNumbers,
    from: int,
    to: int,
)
    requires
        in_good_order(store),
        from <= to,
        whole_minutes(from, to),
        all_priced(quotes),
        all_new(store.reopen(), minute_rows(quotes, from, to)),
        starts_over(m, store, from, to),
        is_served(m, pages, quotes),
    ensures
        store_after(store, m, pages) == store.after(minute_rows(quotes, from, to)),
        rows_held(bitstamp_run(m, pages).ledger) == rows_held(store.reopen()) + minute_rows(
            quotes,
            from,
            to,
        ),
{
    law_a_run_stores_each_minute_once(m, pages, quotes);
}

/// Behind the first of two adjoining stretches, the second lies behind the cursor
/// of a store that was blank.
proof fn lemma_cursor_behind_minutes(quotes: spec_fn(int) -> QuoteNumbers, a: int, b: int, c: int)
    requires
        a <= b <= c,
        whole_minutes(a, b),
        whole_minutes(b, c),
        all_placed(minute_rows(quotes, a, c)),
    ensures
        ({
            let once = StoreModel::blank().after(minute_rows(quotes, a, b));
            in_good_order(once) && all_new(once.reopen(), minute_rows(quotes, b, c))
        }),
{
    let blank = StoreModel::blank();
    let x = minute_rows(quotes, a, b);
    let once = blank.after(x);
    lemma_two_stretches(quotes, a, b, c);
    law_storing_again_changes_nothing(blank, x, Seq::empty());
    lemma_rows_stay_on_course(blank.reopen(), x);
    lemma_new_rows(blank.reopen(), x);
    if x.len() > 0 {
        let w = blank.reopen().offer_all(x).flush().written;
        assert(w.last().last_ts == x.last().ts_micros);
        assert(once.last_ts == Some(x.last().ts_micros));
        assert(x.last() == x[x.len() - 1]);
    } else {
        assert(blank.reopen().offer_all(x) == blank.reopen());
        assert(once.last_ts is None);
    }
}

/// Whether a run is one over a store that has not asked for anything yet.
pub open spec fn starts_over(m: BitstampModel, store: StoreModel, from: int, to: int) -> bool {
    m == BitstampModel {
        ledger: store.reopen(),
        cursor_secs: from,
        up_to_secs: to,
        done: from >= to,
    }
}

/// What the store holds behind a run over pages that started from it.
pub open spec fn store_after(
    store: StoreModel,
    start: BitstampModel,
    pages: Seq<PageModel>,
) -> StoreModel {
    store.put_all(bitstamp_run(start, pages).ledger.flush().written)
}

// ── Runs over any pages ─────────────────────────────────────────────────────

/// The rows in the range of each page of a run.
pub open spec fn kept_pages(m: BitstampModel, pages: Seq<PageModel>) -> Seq<Seq<TradeRow>>
    decreases pages.len(),
{
    if pages.len() == 0 {
        Seq::empty()
    } else {
        let page = pages.last();
        let state = bitstamp_run(m, pages.drop_last());
        kept_pages(m, pages.drop_last()).push(
            bitstamp_rows(page.entries, page.numbers, state.cursor_secs, state.up_to_secs),
        )
    }
}

/// Whether every page has its candles in the order of time, with the numbers of
/// each.
pub open spec fn oldest_first(pages: Seq<PageModel>) -> bool {
    forall|p: int|
        0 <= p < pages.len() ==> (#[trigger] pages[p]).entries.len() == pages[p].numbers.len()
            && in_time_order(pages[p].entries)
}

/// Whether candles stand in ascending order of time.
pub open spec fn in_time_order(entries: Seq<OhlcEntry>) -> bool {
    forall|i: int, j: int|
        0 <= i <= j < entries.len() ==> entry_secs(#[trigger] entries[i]) <= entry_secs(
            #[trigger] entries[j],
        )
}

/// A run moves its cursor on behind the rows in the range of each page.
proof fn lemma_run_settles_its_pages(m: BitstampModel, pages: Seq<PageModel>)
    ensures
        bitstamp_run(m, pages).up_to_secs == m.up_to_secs,
        bitstamp_run(m, pages).ledger == settled_run(m.ledger, kept_pages(m, pages)),
    decreases pages.len(),
{
    if pages.len() > 0 {
        lemma_run_settles_its_pages(m, pages.drop_last());
        assert(kept_pages(m, pages).drop_last() =~= kept_pages(m, pages.drop_last()));
    }
}

/// The rows of a page in the order of time stand in that order, none behind the
/// latest second.
proof fn lemma_page_in_order(
    entries: Seq<OhlcEntry>,
    numbers: Seq<QuoteNumbers>,
    from: int,
    up_to: int,
)
    requires
        entries.len() == numbers.len(),
        in_time_order(entries),
        0 <= from,
        up_to * 1_000_000 <= i64::MAX,
    ensures
        ({
            let rows = bitstamp_rows(entries, numbers, from, up_to);
            let latest = latest_secs(entries, from, up_to);
            &&& ascending(rows)
            &&& from <= latest
            &&& forall|i: int|
                0 <= i < rows.len() ==> (#[trigger] rows[i]).ts_micros <= latest * 1_000_000
            &&& entries.len() > 0 ==> forall|i: int|
                0 <= i < rows.len() ==> (#[trigger] rows[i]).ts_micros <= entry_secs(entries.last())
                    * 1_000_000
        }),
    decreases entries.len(),
{
    if entries.len() > 0 {
        let (es, ns) = (entries.drop_last(), numbers.drop_last());
        let before = bitstamp_rows(es, ns, from, up_to);
        let rows = bitstamp_rows(entries, numbers, from, up_to);
        assert forall|i: int| 0 <= i < es.len() implies #[trigger] es[i] == entries[i] by {}
        lemma_page_in_order(es, ns, from, up_to);
        let last = entries.len() - 1;
        if es.len() > 0 {
            assert(entry_secs(entries[last - 1]) <= entry_secs(entries[last]));
        }
        assert forall|i: int| 0 <= i < rows.len() implies (#[trigger] rows[i]).ts_micros
            <= entry_secs(entries[last]) * 1_000_000 && rows[i].ts_micros <= latest_secs(
            entries,
            from,
            up_to,
        ) * 1_000_000 by {
            if i < before.len() {
                assert(rows[i] == before[i]);
            }
        }
        assert forall|i: int, j: int| 0 <= i <= j < rows.len() implies (
        #[trigger] rows[i]).ts_micros <= (#[trigger] rows[j]).ts_micros by {
            if j < before.len() {
                assert(rows[i] == before[i] && rows[j] == before[j]);
            }
        }
    }
}

/// The rows of a run over pages in the order of time stand in that order, none
/// behind the second to ask for next.
proof fn lemma_run_in_order(m: BitstampModel, pages: Seq<PageModel>)
    requires
        m.wf(),
        oldest_first(pages),
    ensures
        ({
            let rows = page_rows(kept_pages(m, pages));
            let state = bitstamp_run(m, pages);
            &&& ascending(rows)
            &&& m.cursor_secs <= state.cursor_secs
            &&& forall|i: int|
                0 <= i < rows.len() ==> (#[trigger] rows[i]).ts_micros <= state.cursor_secs
                    * 1_000_000
        }),
    decreases pages.len(),
{
    if pages.len() > 0 {
        let head = pages.drop_last();
        let page = pages.last();
        let state = bitstamp_run(m, head);
        let before = page_rows(kept_pages(m, head));
        let (from, up_to) = (state.cursor_secs, state.up_to_secs);
        let kept = bitstamp_rows(page.entries, page.numbers, from, up_to);
        let rows = page_rows(kept_pages(m, pages));
        assert forall|p: int| 0 <= p < head.len() implies #[trigger] head[p] == pages[p] by {}
        assert(pages[pages.len() - 1] == page);
        lemma_run_in_order(m, head);
        lemma_run_settles_its_pages(m, head);
        lemma_page_in_order(page.entries, page.numbers, from, up_to);
        law_rows_lie_in_the_range(page.entries, page.numbers, from, up_to);
        assert(kept_pages(m, pages).drop_last() =~= kept_pages(m, head));
        assert(rows == before + kept);
        let n = before.len() as int;
        assert forall|i: int| 0 <= i < rows.len() implies (#[trigger] rows[i]).ts_micros
            <= bitstamp_run(m, pages).cursor_secs * 1_000_000 by {
            if i < n {
                assert(rows[i] == before[i]);
            } else {
                assert(rows[i] == kept[i - n]);
            }
        }
        assert forall|i: int, j: int| 0 <= i <= j < rows.len() implies (
        #[trigger] rows[i]).ts_micros <= (#[trigger] rows[j]).ts_micros by {
            if j < n {
                assert(rows[i] == before[i] && rows[j] == before[j]);
            } else if i >= n {
                assert(rows[i] == kept[i - n] && rows[j] == kept[j - n]);
            } else {
                assert(rows[i] == before[i] && rows[j] == kept[j - n]);
            }
        }
    }
}

/// A run that takes up where an earlier one ended, over pages in the order of
/// time, hands each month out once, whole and in order, with the cursor at its
/// last row.
pub proof fn law_each_month_is_handed_out_once(m: BitstampModel, pages: Seq<PageModel>)
    requires
        m.wf(),
        takes_up(m.ledger),
        oldest_first(pages),
        all_placed(page_rows(kept_pages(m, pages))),
    ensures
        months_in_order(bitstamp_run(m, pages).ledger.flush().written),
{
    lemma_run_settles_its_pages(m, pages);
    lemma_run_in_order(m, pages);
    law_each_month_is_written_once(m.ledger, kept_pages(m, pages));
}

/// Fetching a range twice changes nothing: where a second run, started from what
/// the first left behind, finds no other rows in the range than the first did,
/// every shard holds the same rows afterwards, none twice and none lost, and the
/// saved cursor stands at the same timestamp.
pub proof fn law_fetching_a_range_twice_changes_nothing(
    store: StoreModel,
    first: BitstampModel,
    pages: Seq<PageModel>,
    second: BitstampModel,
    again: Seq<PageModel>,
)
    requires
        in_good_order(store),
        first.wf(),
        first.ledger == store.reopen(),
        oldest_first(pages),
        all_placed(page_rows(kept_pages(first, pages))),
        second.ledger == store_after(store, first, pages).reopen(),
        forall|i: int|
            0 <= i < page_rows(kept_pages(second, again)).len() ==> page_rows(
                kept_pages(first, pages),
            ).contains(#[trigger] page_rows(kept_pages(second, again))[i]),
    ensures
        store_after(store_after(store, first, pages), second, again).same_rows(
            store_after(store, first, pages),
        ),
{
    lemma_run_settles_its_pages(first, pages);
    lemma_run_settles_its_pages(second, again);
    lemma_run_in_order(first, pages);
    law_storing_pages_again_changes_nothing(
        store,
        kept_pages(first, pages),
        kept_pages(second, again),
    );
}

/// Which candle each row is that of.
proof fn lemma_rows_from_entries(
    entries: Seq<OhlcEntry>,
    numbers: Seq<QuoteNumbers>,
    from: int,
    up_to: int,
) -> (at: Seq<int>)
    requires
        entries.len() == numbers.len(),
    ensures
        ({
            let rows = bitstamp_rows(entries, numbers, from, up_to);
            &&& at.len() == rows.len()
            &&& forall|i: int, j: int| 0 <= i < j < at.len() ==> #[trigger] at[i] < #[trigger] at[j]
            &&& forall|i: int|
                0 <= i < at.len() ==> {
                    let k = #[trigger] at[i];
                    0 <= k < entries.len() && in_range(entries[k], from, up_to)
                        && !numbers[k].price.at_most_zero()
                        && rows[i] == bitstamp_row(entries[k], numbers[k])
                }
            &&& forall|k: int|
                0 <= k < entries.len() && in_range(entries[k], from, up_to)
                    && !numbers[k].price.at_most_zero()
                    ==> #[trigger] at.contains(k)
        }),
    decreases entries.len(),
{
    if entries.len() == 0 {
        Seq::empty()
    } else {
        let last = entries.len() - 1;
        let before = lemma_rows_from_entries(entries.drop_last(), numbers.drop_last(), from, up_to);
        let earlier = bitstamp_rows(entries.drop_last(), numbers.drop_last(), from, up_to);
        let rows = bitstamp_rows(entries, numbers, from, up_to);
        let at = if rows.len() > earlier.len() {
            before.push(last)
        } else {
            before
        };
        assert forall|i: int| 0 <= i < at.len() implies {
            let k = #[trigger] at[i];
            0 <= k < entries.len() && in_range(entries[k], from, up_to)
                && !numbers[k].price.at_most_zero()
                && rows[i] == bitstamp_row(entries[k], numbers[k])
        } by {
            if i < before.len() {
                assert(at[i] == before[i]);
                assert(rows[i] == earlier[i]);
            }
        }
        assert forall|i: int, j: int| 0 <= i < j < at.len() implies #[trigger] at[i]
            < #[trigger] at[j] by {
            assert(at[i] == before[i]);
            if j < before.len() {
                assert(at[j] == before[j]);
            }
        }
        assert forall|k: int|
            0 <= k < entries.len() && in_range(entries[k], from, up_to)
                && !numbers[k].price.at_most_zero() implies #[trigger] at.contains(k) by {
            if k < last {
                assert(before.contains(k));
                let i = choose|i: int| 0 <= i < before.len() && before[i] == k;
                assert(at[i] == k);
            } else {
                assert(at[at.len() - 1] == k);
            }
        }
        at
    }
}

/// Every row of a page is that of one candle of it, field by field: the candle's
/// second in microseconds, or zero where its text is no number; its price and its
/// volume. The rows stand in the order of their candles. No candle is left out
/// that lies in the range and has a positive price.
pub proof fn law_every_row_is_a_candle_of_the_page(
    entries: Seq<OhlcEntry>,
    numbers: Seq<QuoteNumbers>,
    from: int,
    up_to: int,
) -> (at: Seq<int>)
    requires
        entries.len() == numbers.len(),
        0 <= from,
        up_to * 1_000_000 <= i64::MAX,
    ensures
        ({
            let rows = bitstamp_rows(entries, numbers, from, up_to);
            &&& at.len() == rows.len()
            &&& forall|i: int, j: int| 0 <= i < j < at.len() ==> #[trigger] at[i] < #[trigger] at[j]
            &&& forall|i: int|
                0 <= i < at.len() ==> {
                    let k = #[trigger] at[i];
                    let secs = (match integer_value(entries[k].timestamp@) {
                        Some(t) => if i64::MIN <= t <= i64::MAX {
                            t
                        } else {
                            0
                        },
                        None => 0,
                    });
                    &&& 0 <= k < entries.len()
                    &&& from <= secs < up_to
                    &&& rows[i].ts_micros == secs * 1_000_000
                    &&& rows[i].price == numbers[k].price
                    &&& rows[i].quantity == numbers[k].quantity
                    &&& rows[i].side is None
                    &&& rows[i].exchange@ == "bitstamp"@
                    &&& !numbers[k].price.at_most_zero()
                }
            &&& forall|k: int|
                0 <= k < entries.len() && ({
                    let secs = (match integer_value(entries[k].timestamp@) {
                        Some(t) => if i64::MIN <= t <= i64::MAX {
                            t
                        } else {
                            0
                        },
                        None => 0,
                    });
                    from <= secs < up_to
                }) && !numbers[k].price.at_most_zero() ==> #[trigger] at.contains(k)
        }),
{
    let at = lemma_rows_from_entries(entries, numbers, from, up_to);
    assert forall|k: int|
        0 <= k < entries.len() && ({
            let secs = (match integer_value(entries[k].timestamp@) {
                        Some(t) => if i64::MIN <= t <= i64::MAX {
                            t
                        } else {
                            0
                        },
                        None => 0,
                    });
            from <= secs < up_to
        }) && !numbers[k].price.at_most_zero() implies #[trigger] at.contains(k) by {
        assert(in_range(entries[k], from, up_to));
    }
    at
}

/// The latest second of a page is none before that of any candle in the range,
/// and it is one of theirs where it is not the start of the range.
pub proof fn law_the_latest_second_is_that_of_a_candle(
    entries: Seq<OhlcEntry>,
    from: int,
    up_to: int,
)
    ensures
        latest_secs(entries, from, up_to) >= from,
        forall|k: int|
            0 <= k < entries.len() && from <= entry_secs(#[trigger] entries[k]) < up_to
                ==> entry_secs(entries[k]) <= latest_secs(entries, from, up_to),
        latest_secs(entries, from, up_to) > from ==> exists|k: int|
            0 <= k < entries.len() && entry_secs(#[trigger] entries[k]) == latest_secs(
                entries,
                from,
                up_to,
            ) && entry_secs(entries[k]) < up_to,
    decreases entries.len(),
{
    if entries.len() > 0 {
        let head = entries.drop_last();
        let last = entries.len() - 1;
        law_the_latest_second_is_that_of_a_candle(head, from, up_to);
        assert forall|k: int|
            0 <= k < entries.len() && from <= entry_secs(
                #[trigger] entries[k],
            ) < up_to implies entry_secs(entries[k]) <= latest_secs(entries, from, up_to) by {
            if k < last {
                assert(head[k] == entries[k]);
            }
        }
        let latest = latest_secs(entries, from, up_to);
        if latest > from {
            if entry_secs(entries[last]) == latest && in_range(entries[last], from, up_to) {
                assert(entry_secs(entries[last]) == latest);
            } else {
                let k = choose|k: int|
                    0 <= k < head.len() && entry_secs(#[trigger] head[k]) == latest && entry_secs(
                        head[k],
                    ) < up_to;
                assert(entries[k] == head[k]);
            }
        }
    }
}

/// A candle's second is what its text stands for, where that is a number of 64
/// bits, and zero where it is not.
pub proof fn law_candle_texts_are_seconds(e: OhlcEntry, t: int)
    ensures
        integer_value(e.timestamp@) == Some(t) && i64::MIN <= t <= i64::MAX ==> entry_secs(e) == t,
        integer_value(e.timestamp@) == Some(t) && !(i64::MIN <= t <= i64::MAX) ==> entry_secs(e)
            == 0,
        integer_value(e.timestamp@) is None ==> entry_secs(e) == 0,
{
}

/// A page leads the run on to one minute behind its latest candle, or ends it: at
/// the end of the range, or where no candle lies behind the second asked for. Its
/// rows are offered, and the cursor is moved on to the last row gathered.
pub proof fn law_a_page_leads_a_minute_behind_its_latest_candle(m: BitstampModel, page: PageModel)
    ensures
        ({
            let after = m.take(page.entries, page.numbers);
            let latest = latest_secs(page.entries, m.cursor_secs, m.up_to_secs);
            let offered = m.ledger.offer_all(
                bitstamp_rows(page.entries, page.numbers, m.cursor_secs, m.up_to_secs),
            );
            &&& after.up_to_secs == m.up_to_secs
            &&& latest > m.cursor_secs ==> after.cursor_secs == latest + 60
            &&& latest <= m.cursor_secs ==> after.done && after.cursor_secs == m.cursor_secs
            &&& latest > m.cursor_secs ==> after.done == (latest + 60 >= m.up_to_secs)
            &&& after.ledger.buf == offered.buf
            &&& after.ledger.written == offered.written
            &&& offered.buf.len() > 0 ==> after.ledger.last_ts is Some && after.ledger.last_ts->0
                >= offered.buf.last().ts_micros
        }),
{
}

} // verus!
