//! Kraken's history, trade by trade.
//!
//! Trades are asked for by page, from an instant in nanoseconds on:
//!
//! ```text
//! GET https://api.kraken.com/0/public/Trades?pair=XBTUSD&since={since_ns}
//! ```
//!
//! An answer holds a list of errors and a result. The result holds the trades
//! under the pair's name, and under `last` the instant to ask for next. A trade
//! is an array of price, volume, time in seconds, side and more. Price and
//! volume are texts, the time is a number.

use vstd::prelude::*;

use crate::binary64::Binary64;
use crate::historical::cursor::Cursor;
use crate::historical::exchange_floor;
use crate::historical::schema::{ascending, TradeRow};
use crate::historical::sources::json::{
    find_member, is_named, law_only_objects_have_fields, member, Json,
};
use crate::historical::sources::laws::{
    all_new, all_placed, law_each_offered_month_is_written_once, law_no_row_is_lost,
    lemma_new_rows, lemma_offer_concat, months_in_order, rows_held, rows_of, takes_up,
};
use crate::historical::sources::ledger::{
    all_labelled, flush_models, started, FlushModel, LedgerModel, MonthFlush, MonthLedger,
};
use crate::historical::sources::stored::{
    in_good_order, law_storing_again_changes_nothing, StoreModel,
};
use crate::historical::sources::{first_instant, later_of, HistoricalFetcher};
use crate::text::{
    bounded_value, integer_text, integer_value, parse_i64, same_text, write_i64,
};

verus! {

// ── Reading an answer ───────────────────────────────────────────────────────

/// A trade of an answer. The texts of its numbers are kept as they came.
pub struct RawTrade {
    pub price: String,
    pub volume: String,
    /// Seconds since the UNIX epoch.
    pub time: Binary64,
    pub side: Option<&'static str>,
}

/// What became of a request.
pub enum KrakenReply {
    /// No answer came, or one with a status other than success.
    Unavailable,
    /// An answer came that is no JSON.
    Unreadable,
    /// The answer lists errors.
    ApiError,
    /// The answer holds no result.
    NoResult,
    /// The result holds no list of trades.
    NoTrades,
    /// The result does not say where to go on.
    NoCursor,
    /// The list of trades is empty.
    Empty,
    /// Trades, and the instant to ask for next.
    Page { trades: Vec<RawTrade>, next_since: i64 },
}

/// A trade of an answer, as it is read.
pub struct TradeModel {
    pub price: Seq<char>,
    pub volume: Seq<char>,
    pub time: Binary64,
    pub side: Option<Seq<char>>,
}

impl View for RawTrade {
    type V = TradeModel;

    open spec fn view(&self) -> TradeModel {
        TradeModel {
            price: self.price@,
            volume: self.volume@,
            time: self.time,
            side: match self.side {
                Some(s) => Some(s@),
                None => None,
            },
        }
    }
}

/// A text, or the empty text where there is none.
pub open spec fn text_or_empty(v: Json) -> Seq<char> {
    match v.text() {
        Some(s) => s,
        None => Seq::empty(),
    }
}

/// A number, or zero where there is none.
pub open spec fn number_or_zero(v: Json) -> Binary64 {
    match v.number() {
        Some(n) => n,
        None => Binary64 { bits: 0 },
    }
}

/// The side that a trade's letter stands for.
pub open spec fn side_of(letter: Seq<char>) -> Option<Seq<char>> {
    if letter == "b"@ {
        Some("buy"@)
    } else if letter == "s"@ {
        Some("sell"@)
    } else {
        None
    }
}

/// What an item of the list of trades holds; nothing where it is no array of
/// four or more.
pub open spec fn trade_of(item: Json) -> Option<TradeModel> {
    match item.items() {
        Some(v) => if v.len() < 4 {
            None
        } else {
            Some(
                TradeModel {
                    price: text_or_empty(v[0]),
                    volume: text_or_empty(v[1]),
                    time: number_or_zero(v[2]),
                    side: side_of(text_or_empty(v[3])),
                },
            )
        },
        None => None,
    }
}

/// The trades among the items of a list, in order.
pub open spec fn trades_of(items: Seq<Json>) -> Seq<TradeModel>
    decreases items.len(),
{
    if items.len() == 0 {
        Seq::empty()
    } else {
        let before = trades_of(items.drop_last());
        match trade_of(items.last()) {
            Some(t) => before.push(t),
            None => before,
        }
    }
}

/// The first array among the members of a result that is not under `last`.
pub open spec fn trade_list(members: Seq<(String, Json)>) -> Option<Seq<Json>>
    decreases members.len(),
{
    if members.len() == 0 {
        None
    } else if !is_named(members[0], "last"@) && members[0].1.items() is Some {
        members[0].1.items()
    } else {
        trade_list(members.skip(1))
    }
}

/// The instant to ask for next, where the result says it.
pub open spec fn next_instant(members: Seq<(String, Json)>) -> Option<int> {
    match member(members, "last"@) {
        Some(v) => match v.text() {
            Some(s) => bounded_value(s, i64::MIN as int, i64::MAX as int),
            None => None,
        },
        None => None,
    }
}

/// Whether an answer lists errors.
pub open spec fn lists_errors(answer: Json) -> bool {
    answer.field("error"@) matches Some(e) && e.items() matches Some(v) && v.len() > 0
}

/// The members of an answer's result.
pub open spec fn result_of(answer: Json) -> Option<Seq<(String, Json)>> {
    match answer.field("result"@) {
        Some(r) => r.members(),
        None => None,
    }
}

/// The trades of a list, as they are read.
pub open spec fn trade_models(trades: Seq<RawTrade>) -> Seq<TradeModel> {
    trades.map_values(|t: RawTrade| t@)
}

/// Whether a reply is what an answer says.
pub open spec fn reads(answer: Json, reply: KrakenReply) -> bool {
    if lists_errors(answer) {
        reply is ApiError
    } else {
        match result_of(answer) {
            None => reply is NoResult,
            Some(members) => match (trade_list(members), next_instant(members)) {
                (None, _) => reply is NoTrades,
                (Some(_), None) => reply is NoCursor,
                (Some(items), Some(next)) => if items.len() == 0 {
                    reply is Empty
                } else {
                    reply matches KrakenReply::Page { trades, next_since } && next_since == next
                        && trade_models(trades@) == trades_of(items)
                },
            },
        }
    }
}

/// A text, or the empty text where there is none.
fn text_of_value(v: &Json) -> (s: String)
    ensures
        s@ == text_or_empty(*v),
{
    match v.as_text() {
        Some(s) => s.to_owned(),
        None => String::new(),
    }
}

/// Reads one item of the list of trades.
fn read_trade(item: &Json) -> (r: Option<RawTrade>)
    ensures
        match r {
            Some(t) => trade_of(*item) == Some(t@),
            None => trade_of(*item) is None,
        },
{
    let fields = match item.as_array() {
        Some(v) => v,
        None => return None,
    };
    if fields.len() < 4 {
        return None;
    }
    let letter = text_of_value(&fields[3]);
    let side: Option<&'static str> = if same_text(letter.as_str(), "b") {
        Some("buy")
    } else if same_text(letter.as_str(), "s") {
        Some("sell")
    } else {
        None
    };
    let time = match fields[2].as_number() {
        Some(n) => n,
        None => Binary64 { bits: 0 },
    };
    Some(
        RawTrade { price: text_of_value(&fields[0]), volume: text_of_value(&fields[1]), time, side },
    )
}

/// Reads the list of trades.
fn read_trades(items: &Vec<Json>) -> (trades: Vec<RawTrade>)
    ensures
        trade_models(trades@) == trades_of(items@),
{
    let mut trades: Vec<RawTrade> = Vec::new();
    assert(trade_models(trades@) =~= trades_of(items@.take(0)));
    for i in 0..items.len()
        invariant
            trade_models(trades@) == trades_of(items@.take(i as int)),
    {
        assert(items@.take(i + 1).drop_last() =~= items@.take(i as int));
        let ghost before = trades@;
        match read_trade(&items[i]) {
            Some(t) => {
                trades.push(t);
                assert(trade_models(trades@) =~= trade_models(before).push(t@));
            },
            None => {},
        }
    }
    assert(items@.take(items@.len() as int) =~= items@);
    trades
}

/// Finds the list of trades in a result.
fn find_trades<'a>(members: &'a Vec<(String, Json)>) -> (r: Option<&'a Vec<Json>>)
    ensures
        match r {
            Some(v) => trade_list(members@) == Some(v@),
            None => trade_list(members@) is None,
        },
{
    assert(members@.skip(0) =~= members@);
    for i in 0..members.len()
        invariant
            trade_list(members@) == trade_list(members@.skip(i as int)),
    {
        assert(members@.skip(i as int).skip(1) =~= members@.skip(i + 1));
        if !same_text(members[i].0.as_str(), "last") {
            match members[i].1.as_array() {
                Some(v) => {
                    return Some(v);
                },
                None => {},
            }
        }
    }
    None
}

/// Reads an answer.
pub fn read_answer(answer: &Json) -> (reply: KrakenReply)
    ensures
        reads(*answer, reply),
{
    match answer.get("error") {
        Some(e) => match e.as_array() {
            Some(v) => if v.len() > 0 {
                return KrakenReply::ApiError;
            },
            None => {},
        },
        None => {},
    }
    let members = match answer.get("result") {
        Some(r) => match r.as_object() {
            Some(m) => m,
            None => return KrakenReply::NoResult,
        },
        None => return KrakenReply::NoResult,
    };
    let items = match find_trades(members) {
        Some(v) => v,
        None => return KrakenReply::NoTrades,
    };
    let next_since = match find_member(members, "last") {
        Some(v) => match v.as_text() {
            Some(s) => match parse_i64(s) {
                Some(n) => n,
                None => return KrakenReply::NoCursor,
            },
            None => return KrakenReply::NoCursor,
        },
        None => return KrakenReply::NoCursor,
    };
    if items.len() == 0 {
        return KrakenReply::Empty;
    }
    KrakenReply::Page { trades: read_trades(items), next_since }
}

// ── From trades to rows ─────────────────────────────────────────────────────

/// The numbers of a trade: its time in microseconds, and what the texts of its
/// price and volume stand for.
#[derive(Clone, Copy, Debug)]
pub struct TradeNumbers {
    pub ts_micros: i64,
    pub price: Binary64,
    pub volume: Binary64,
}

/// How many trades come before the first at or behind the end of the range.
pub open spec fn before_end(numbers: Seq<TradeNumbers>, up_to: int) -> int
    decreases numbers.len(),
{
    if numbers.len() == 0 {
        0
    } else {
        let n = before_end(numbers.drop_last(), up_to);
        if n == numbers.len() - 1 && numbers.last().ts_micros < up_to {
            n + 1
        } else {
            n
        }
    }
}

/// The row of a trade.
pub open spec fn kraken_row(t: RawTrade, n: TradeNumbers) -> TradeRow {
    TradeRow {
        ts_micros: n.ts_micros,
        price: n.price,
        quantity: n.volume,
        side: t.side,
        exchange: "kraken",
    }
}

/// The rows of trades, without those that have no positive price or volume.
pub open spec fn kraken_rows(trades: Seq<RawTrade>, numbers: Seq<TradeNumbers>) -> Seq<TradeRow>
    decreases trades.len(),
{
    if trades.len() == 0 {
        Seq::empty()
    } else {
        let before = kraken_rows(trades.drop_last(), numbers.drop_last());
        let n = numbers.last();
        if n.price.at_most_zero() || n.volume.at_most_zero() {
            before
        } else {
            before.push(kraken_row(trades.last(), n))
        }
    }
}

/// The rows of a page that lie in the range.
pub open spec fn page_rows(
    trades: Seq<RawTrade>,
    numbers: Seq<TradeNumbers>,
    up_to: int,
) -> Seq<TradeRow> {
    let n = before_end(numbers, up_to);
    kraken_rows(trades.take(n), numbers.take(n))
}

/// Counts the trades before the first at or behind the end of the range.
fn count_before_end(numbers: &Vec<TradeNumbers>, up_to: i64) -> (n: usize)
    ensures
        n == before_end(numbers@, up_to as int),
        n <= numbers@.len(),
{
    let mut n: usize = 0;
    assert(numbers@.take(0) =~= Seq::<TradeNumbers>::empty());
    for i in 0..numbers.len()
        invariant
            n <= i,
            n == before_end(numbers@.take(i as int), up_to as int),
    {
        assert(numbers@.take(i + 1).drop_last() =~= numbers@.take(i as int));
        if n == i && numbers[i].ts_micros < up_to {
            n = n + 1;
        }
    }
    assert(numbers@.take(numbers@.len() as int) =~= numbers@);
    n
}

/// Makes the rows of a page.
pub fn collect_rows(
    trades: &Vec<RawTrade>,
    numbers: &Vec<TradeNumbers>,
    up_to_micros: i64,
) -> (rows: Vec<TradeRow>)
    requires
        trades@.len() == numbers@.len(),
    ensures
        rows@ == page_rows(trades@, numbers@, up_to_micros as int),
        rows@.len() <= trades@.len(),
{
    let n: usize = count_before_end(numbers, up_to_micros);
    let mut rows: Vec<TradeRow> = Vec::new();
    assert(trades@.take(0) =~= Seq::<RawTrade>::empty());
    for i in 0..n
        invariant
            n <= trades@.len(),
            trades@.len() == numbers@.len(),
            rows@ == kraken_rows(trades@.take(i as int), numbers@.take(i as int)),
            rows@.len() <= i,
    {
        assert(trades@.take(i + 1).drop_last() =~= trades@.take(i as int));
        assert(numbers@.take(i + 1).drop_last() =~= numbers@.take(i as int));
        let t = numbers[i];
        if !t.price.is_at_most_zero() && !t.volume.is_at_most_zero() {
            rows.push(
                TradeRow {
                    ts_micros: t.ts_micros,
                    price: t.price,
                    quantity: t.volume,
                    side: trades[i].side,
                    exchange: "kraken",
                },
            );
        }
    }
    rows
}

// ── The run ─────────────────────────────────────────────────────────────────

/// A run over Kraken's history.
pub struct KrakenRun {
    ledger: MonthLedger,
    /// The timestamp of the last row gathered. The cursor stays where the last
    /// month ended, so that trades of one instant are kept also where a page ends
    /// between them.
    reached: Option<i64>,
    since_ns: i64,
    up_to_micros: i64,
    done: bool,
}

/// The state of a run: its ledger, how far its rows reach, the instant to ask for
/// next, the end of the range, and whether there is nothing left to ask for.
pub struct KrakenModel {
    pub ledger: LedgerModel,
    pub reached: Option<i64>,
    pub since_ns: int,
    pub up_to: int,
    pub done: bool,
}

impl View for KrakenRun {
    type V = KrakenModel;

    closed spec fn view(&self) -> KrakenModel {
        KrakenModel {
            ledger: self.ledger@,
            reached: self.reached,
            since_ns: self.since_ns as int,
            up_to: self.up_to_micros as int,
            done: self.done,
        }
    }
}

/// A page as it is taken in: its trades, their numbers, and the instant to ask
/// for next.
pub struct PageModel {
    pub trades: Seq<RawTrade>,
    pub numbers: Seq<TradeNumbers>,
    pub next_since: int,
}

impl KrakenModel {
    /// The state behind a page. The rows in the range are offered to the ledger.
    /// The run goes on where the page says, unless the page reaches the end of
    /// the range or does not lead further.
    pub open spec fn take(self, page: PageModel) -> KrakenModel {
        let ledger = self.ledger.offer_all(page_rows(page.trades, page.numbers, self.up_to));
        let ended = before_end(page.numbers, self.up_to) < page.numbers.len() || page.next_since
            <= self.since_ns;
        KrakenModel {
            ledger,
            reached: if ledger.buf.len() > 0 {
                Some(ledger.buf.last().ts_micros)
            } else {
                self.reached
            },
            since_ns: if ended {
                self.since_ns
            } else {
                page.next_since
            },
            done: ended,
            ..self
        }
    }

    /// The same state with nothing handed out yet.
    pub open spec fn afresh(self) -> KrakenModel {
        KrakenModel { ledger: self.ledger.afresh(), ..self }
    }
}

/// The source of Kraken's history.
pub struct KrakenFetcher {
    data_root: String,
}

impl HistoricalFetcher for KrakenFetcher {
    open spec fn name(&self) -> Seq<char> {
        "kraken"@
    }

    fn exchange(&self) -> (name: &'static str)
        ensures
            name@ == "kraken"@,
    {
        "kraken"
    }
}

impl KrakenFetcher {
    /// The directory that the history is kept under.
    pub closed spec fn root(self) -> Seq<char> {
        self.data_root@
    }

    /// A source that keeps its history under the given directory.
    pub fn new(data_root: String) -> (f: Self)
        ensures
            f.root() == data_root@,
    {
        KrakenFetcher { data_root }
    }

    /// The directory that the history is kept under.
    pub fn data_root(&self) -> (root: &str)
        ensures
            root@ == self.root(),
    {
        self.data_root.as_str()
    }

    /// Starts a run over the range from `resume_from_micros` up to, but not
    /// with, `up_to_micros`. The seed is what the shard of the cursor's month
    /// holds already.
    pub fn fetch_range(
        &self,
        resume_from_micros: i64,
        up_to_micros: i64,
        cursor: Cursor,
        key: Option<(i32, u32)>,
        seed: Vec<TradeRow>,
    ) -> (run: KrakenRun)
        requires
            resume_from_micros * 1_000 <= i64::MAX,
        ensures
            run@ == (KrakenModel {
                ledger: started(cursor, key, seed@),
                reached: cursor.last_ts_micros,
                since_ns: first_instant(resume_from_micros as int, 1_483_228_800_000_000) * 1_000,
                up_to: up_to_micros as int,
                done: false,
            }),
    {
        proof {
            reveal_strlit("kraken");
            reveal_strlit("binance");
            assert("kraken"@.len() != "binance"@.len());
        }
        let start: i64 = later_of(resume_from_micros, exchange_floor("kraken"));
        let reached = cursor.last_ts_micros;
        KrakenRun {
            ledger: MonthLedger::resume(cursor, key, seed),
            reached,
            since_ns: start * 1_000,
            up_to_micros,
            done: false,
        }
    }
}

impl KrakenRun {
    /// Whether there is nothing left to ask for.
    pub fn is_done(&self) -> (r: bool)
        ensures
            r == self@.done,
    {
        self.done
    }

    /// The timestamp of the last row gathered.
    pub fn reached(&self) -> (t: Option<i64>)
        ensures
            t == self@.reached,
    {
        self.reached
    }

    /// The end of the range.
    pub fn up_to_micros(&self) -> (t: i64)
        ensures
            t == self@.up_to,
    {
        self.up_to_micros
    }

    /// The run's ledger.
    pub fn ledger(&self) -> (l: &MonthLedger)
        ensures
            l@ == self@.ledger,
    {
        &self.ledger
    }

    /// The address to ask for the next page.
    pub fn request_url(&self) -> (url: String)
        ensures
            url@ == "https://api.kraken.com/0/public/Trades?pair=XBTUSD&since="@ + integer_text(
                self@.since_ns,
            ),
    {
        let mut url = "https://api.kraken.com/0/public/Trades?pair=XBTUSD&since=".to_owned();
        url.append(write_i64(self.since_ns).as_str());
        url
    }

    /// Takes a reply in. A page's rows in the range are gathered, and complete
    /// months are handed out. The run goes on where the page says; it is done
    /// when the page reaches the end of the range, when the page does not lead
    /// further, or when the reply is not a page. What is gathered is kept in any
    /// case. Where no answer came the same request is to be made again. A page
    /// that leaves the run unfinished moves it forward.
    pub fn take_reply(
        &mut self,
        reply: &KrakenReply,
        numbers: &Vec<TradeNumbers>,
    ) -> (flushes: Vec<MonthFlush>)
        requires
            reply matches KrakenReply::Page { trades, .. } ==> {
                &&& trades@.len() == numbers@.len()
                &&& old(self)@.ledger.has_room(trades@.len() as int)
                &&& old(self)@.ledger.can_offer(page_rows(trades@, numbers@, old(self)@.up_to))
            },
        ensures
            reply is Page ==> final(self)@.done || final(self)@.since_ns > old(self)@.since_ns,
            match reply {
                KrakenReply::Unavailable => final(self)@ == old(self)@ && flushes@.len() == 0,
                KrakenReply::Page { trades, next_since } => {
                    let after = old(self)@.take(
                        PageModel {
                            trades: trades@,
                            numbers: numbers@,
                            next_since: *next_since as int,
                        },
                    );
                    &&& final(self)@ == after.afresh()
                    &&& flush_models(flushes@) == after.ledger.written
                    &&& all_labelled(flushes@)
                },
                _ => final(self)@ == (KrakenModel { done: true, ..old(self)@ })
                    && flushes@.len() == 0,
            },
    {
        match reply {
            KrakenReply::Unavailable => Vec::new(),
            KrakenReply::Page { trades, next_since } => {
                let rows = collect_rows(trades, numbers, self.up_to_micros);
                let flushes = self.ledger.offer_all(&rows);
                match self.ledger.last_gathered() {
                    Some(ts) => {
                        self.reached = Some(ts);
                    },
                    None => {},
                }
                let reached_end = count_before_end(numbers, self.up_to_micros) < numbers.len();
                if reached_end || *next_since <= self.since_ns {
                    self.done = true;
                } else {
                    self.since_ns = *next_since;
                    self.done = false;
                }
                flushes
            },
            _ => {
                self.done = true;
                Vec::new()
            },
        }
    }

    /// Ends the run: hands out what is still gathered.
    pub fn finish(&mut self) -> (out: Option<MonthFlush>)
        requires
            old(self)@.ledger.has_room(0),
        ensures
            ({
                let after = old(self)@.ledger.flush();
                &&& final(self)@ == (KrakenModel { ledger: after.afresh(), ..old(self)@ })
                &&& match out {
                    Some(f) => after.written == seq![f@] && f.labelled(),
                    None => after.written == Seq::<FlushModel>::empty(),
                }
            }),
    {
        self.ledger.flush()
    }
}

/// The end of the range belongs to it no more: every row of a page that is kept
/// lies before it.
pub proof fn law_rows_lie_before_the_end(
    trades: Seq<RawTrade>,
    numbers: Seq<TradeNumbers>,
    up_to: int,
)
    requires
        trades.len() == numbers.len(),
    ensures
        forall|i: int|
            0 <= i < page_rows(trades, numbers, up_to).len() ==> (#[trigger] page_rows(
                trades,
                numbers,
                up_to,
            )[i]).ts_micros < up_to,
{
    lemma_before_end(numbers, up_to);
    let n = before_end(numbers, up_to);
    lemma_rows_from_numbers(trades.take(n), numbers.take(n), up_to);
}

proof fn lemma_before_end(numbers: Seq<TradeNumbers>, up_to: int)
    ensures
        0 <= before_end(numbers, up_to) <= numbers.len(),
        forall|i: int|
            0 <= i < before_end(numbers, up_to) ==> (#[trigger] numbers[i]).ts_micros < up_to,
    decreases numbers.len(),
{
    if numbers.len() > 0 {
        let head = numbers.drop_last();
        lemma_before_end(head, up_to);
        assert forall|i: int| 0 <= i < before_end(numbers, up_to) implies (
        #[trigger] numbers[i]).ts_micros < up_to by {
            if i < head.len() {
                assert(head[i] == numbers[i]);
            }
        }
    }
}

proof fn lemma_rows_from_numbers(trades: Seq<RawTrade>, numbers: Seq<TradeNumbers>, up_to: int)
    requires
        trades.len() == numbers.len(),
        forall|i: int| 0 <= i < numbers.len() ==> (#[trigger] numbers[i]).ts_micros < up_to,
    ensures
        forall|i: int|
            0 <= i < kraken_rows(trades, numbers).len() ==> (#[trigger] kraken_rows(
                trades,
                numbers,
            )[i]).ts_micros < up_to,
    decreases trades.len(),
{
    if trades.len() > 0 {
        let head = numbers.drop_last();
        assert forall|i: int| 0 <= i < head.len() implies (#[trigger] head[i]).ts_micros
            < up_to by {
            assert(head[i] == numbers[i]);
        }
        lemma_rows_from_numbers(trades.drop_last(), head, up_to);
        assert(numbers.last() == numbers[numbers.len() - 1]);
    }
}

// ── Whole runs ──────────────────────────────────────────────────────────────

/// The state behind the pages of a run.
pub open spec fn kraken_run(m: KrakenModel, pages: Seq<PageModel>) -> KrakenModel
    decreases pages.len(),
{
    if pages.len() == 0 {
        m
    } else {
        kraken_run(m, pages.drop_last()).take(pages.last())
    }
}

/// The rows in the range of all pages of a run, in order.
pub open spec fn run_rows(pages: Seq<PageModel>, up_to: int) -> Seq<TradeRow>
    decreases pages.len(),
{
    if pages.len() == 0 {
        Seq::empty()
    } else {
        let page = pages.last();
        run_rows(pages.drop_last(), up_to) + page_rows(page.trades, page.numbers, up_to)
    }
}

/// What the store holds behind a run over pages that started from it.
pub open spec fn store_after(
    store: StoreModel,
    start: KrakenModel,
    pages: Seq<PageModel>,
) -> StoreModel {
    store.put_all(kraken_run(start, pages).ledger.flush().written)
}

proof fn lemma_run_offers_its_rows(m: KrakenModel, pages: Seq<PageModel>)
    ensures
        kraken_run(m, pages).up_to == m.up_to,
        kraken_run(m, pages).ledger == m.ledger.offer_all(run_rows(pages, m.up_to)),
    decreases pages.len(),
{
    if pages.len() > 0 {
        let page = pages.last();
        lemma_run_offers_its_rows(m, pages.drop_last());
        lemma_offer_concat(
            m.ledger,
            run_rows(pages.drop_last(), m.up_to),
            page_rows(page.trades, page.numbers, m.up_to),
        );
    }
}

/// Every trade behind the saved cursor is stored, once and in order, however the
/// pages fall: a run over pages in the order of time hands out the rows that the
/// shard of the cursor's month held, and then one row for each trade in the range
/// that has a positive price and volume.
pub proof fn law_every_trade_behind_the_cursor_is_stored(
    store: StoreModel,
    start: KrakenModel,
    pages: Seq<PageModel>,
)
    requires
        in_good_order(store),
        start.ledger == store.reopen(),
        ascending(run_rows(pages, start.up_to)),
        all_new(start.ledger, run_rows(pages, start.up_to)),
    ensures
        rows_of(kraken_run(start, pages).ledger.flush().written) == store.seed() + run_rows(
            pages,
            start.up_to,
        ),
{
    let rows = run_rows(pages, start.up_to);
    lemma_run_offers_its_rows(start, pages);
    lemma_new_rows(start.ledger, rows);
    law_no_row_is_lost(start.ledger, rows);
    let l = start.ledger.push_all(rows).flush();
    assert(rows_of(start.ledger.written) == Seq::<TradeRow>::empty());
    assert(rows_held(start.ledger) =~= store.seed());
    assert(rows_held(l) =~= rows_of(l.written));
}

/// A run that takes up where an earlier one ended, over pages in the order of
/// time, hands each month out once, whole and in order, with the cursor at its
/// last row.
pub proof fn law_each_month_is_handed_out_once(start: KrakenModel, pages: Seq<PageModel>)
    requires
        takes_up(start.ledger),
        ascending(run_rows(pages, start.up_to)),
        all_placed(run_rows(pages, start.up_to)),
    ensures
        months_in_order(kraken_run(start, pages).ledger.flush().written),
{
    lemma_run_offers_its_rows(start, pages);
    law_each_offered_month_is_written_once(start.ledger, run_rows(pages, start.up_to));
}

/// Fetching a range twice changes nothing: where a second run, started from what
/// the first left behind, finds no other rows in the range than the first did,
/// every shard holds the same rows afterwards, none twice and none lost, and the
/// saved cursor stands at the same timestamp.
pub proof fn law_fetching_a_range_twice_changes_nothing(
    store: StoreModel,
    first: KrakenModel,
    pages: Seq<PageModel>,
    second: KrakenModel,
    again: Seq<PageModel>,
)
    requires
        in_good_order(store),
        first.ledger == store.reopen(),
        ascending(run_rows(pages, first.up_to)),
        all_placed(run_rows(pages, first.up_to)),
        second.ledger == store_after(store, first, pages).reopen(),
        forall|i: int|
            0 <= i < run_rows(again, second.up_to).len() ==> run_rows(
                pages,
                first.up_to,
            ).contains(#[trigger] run_rows(again, second.up_to)[i]),
    ensures
        store_after(store_after(store, first, pages), second, again).same_rows(
            store_after(store, first, pages),
        ),
{
    lemma_run_offers_its_rows(first, pages);
    lemma_run_offers_its_rows(second, again);
    law_storing_again_changes_nothing(
        store,
        run_rows(pages, first.up_to),
        run_rows(again, second.up_to),
    );
}

/// Which trade each row is that of.
proof fn lemma_rows_from_trades(trades: Seq<RawTrade>, numbers: Seq<TradeNumbers>) -> (at: Seq<int>)
    requires
        trades.len() == numbers.len(),
    ensures
        ({
            let rows = kraken_rows(trades, numbers);
            &&& at.len() == rows.len()
            &&& forall|i: int, j: int| 0 <= i < j < at.len() ==> #[trigger] at[i] < #[trigger] at[j]
            &&& forall|i: int|
                0 <= i < at.len() ==> {
                    let k = #[trigger] at[i];
                    0 <= k < trades.len() && (!numbers[k].price.at_most_zero()
                        && !numbers[k].volume.at_most_zero())
                        && (rows[i].ts_micros == numbers[k].ts_micros
                        && rows[i].price == numbers[k].price
                        && rows[i].quantity == numbers[k].volume && rows[i].side == trades[k].side
                        && rows[i].exchange == "kraken")
                }
            &&& forall|k: int|
                0 <= k < trades.len() && (!numbers[k].price.at_most_zero()
                    && !numbers[k].volume.at_most_zero()) ==> #[trigger] at.contains(k)
        }),
    decreases trades.len(),
{
    if trades.len() == 0 {
        Seq::empty()
    } else {
        let last = trades.len() - 1;
        let before = lemma_rows_from_trades(trades.drop_last(), numbers.drop_last());
        let earlier = kraken_rows(trades.drop_last(), numbers.drop_last());
        let rows = kraken_rows(trades, numbers);
        let at = if rows.len() > earlier.len() {
            before.push(last)
        } else {
            before
        };
        assert forall|i: int| 0 <= i < at.len() implies {
            let k = #[trigger] at[i];
            0 <= k < trades.len() && (!numbers[k].price.at_most_zero()
                && !numbers[k].volume.at_most_zero())
                && (rows[i].ts_micros == numbers[k].ts_micros && rows[i].price == numbers[k].price
                && rows[i].quantity == numbers[k].volume && rows[i].side == trades[k].side
                && rows[i].exchange == "kraken")
        } by {
            if i < before.len() {
                assert(at[i] == before[i]);
                assert(rows[i] == earlier[i]);
            }
        }
        assert forall|i: int, j: int| 0 <= i < j < at.len() implies #[trigger] at[i]
            < #[trigger] at[j] by {
            assert(at[i] == before[i]);
            if j < before.len() {
                assert(at[j] == before[j]);
            }
        }
        assert forall|k: int|
            0 <= k < trades.len() && (!numbers[k].price.at_most_zero()
                && !numbers[k].volume.at_most_zero()) implies #[trigger] at.contains(k) by {
            if k < last {
                assert(before.contains(k));
                let i = choose|i: int| 0 <= i < before.len() && before[i] == k;
                assert(at[i] == k);
            } else {
                assert(at[at.len() - 1] == k);
            }
        }
        at
    }
}

/// Every row of a page is that of one trade of it, field by field: the trade's
/// time, its price, its volume as the quantity, and its side. The rows stand in
/// the order of their trades. No trade is left out that comes before the first
/// at or behind the end of the range and has a positive price and volume.
pub proof fn law_every_row_is_a_trade_of_the_page(
    trades: Seq<RawTrade>,
    numbers: Seq<TradeNumbers>,
    up_to: int,
) -> (at: Seq<int>)
    requires
        trades.len() == numbers.len(),
    ensures
        ({
            let rows = page_rows(trades, numbers, up_to);
            &&& at.len() == rows.len()
            &&& forall|i: int, j: int| 0 <= i < j < at.len() ==> #[trigger] at[i] < #[trigger] at[j]
            &&& forall|i: int|
                0 <= i < at.len() ==> {
                    let k = #[trigger] at[i];
                    &&& 0 <= k < trades.len()
                    &&& rows[i].ts_micros == numbers[k].ts_micros
                    &&& rows[i].price == numbers[k].price
                    &&& rows[i].quantity == numbers[k].volume
                    &&& rows[i].side == trades[k].side
                    &&& rows[i].exchange@ == "kraken"@
                    &&& !numbers[k].price.at_most_zero()
                    &&& !numbers[k].volume.at_most_zero()
                    &&& forall|j: int| 0 <= j <= k ==> (#[trigger] numbers[j]).ts_micros < up_to
                }
            &&& forall|k: int|
                0 <= k < trades.len() && !numbers[k].price.at_most_zero()
                    && !numbers[k].volume.at_most_zero() && (forall|j: int|
                    0 <= j <= k ==> (#[trigger] numbers[j]).ts_micros < up_to)
                    ==> #[trigger] at.contains(k)
        }),
{
    let n = before_end(numbers, up_to);
    lemma_before_end(numbers, up_to);
    lemma_first_behind_end(numbers, up_to);
    let (ts, ns) = (trades.take(n), numbers.take(n));
    let at = lemma_rows_from_trades(ts, ns);
    assert forall|k: int|
        0 <= k < trades.len() && !numbers[k].price.at_most_zero()
            && !numbers[k].volume.at_most_zero() && (forall|j: int|
            0 <= j <= k ==> (#[trigger] numbers[j]).ts_micros
                < up_to) implies #[trigger] at.contains(k) by {
        if k >= n {
            assert(numbers[n].ts_micros < up_to);
        }
        assert(ns[k] == numbers[k]);
    }
    at
}

/// The trades before the end of the range stop at one that is not.
proof fn lemma_first_behind_end(numbers: Seq<TradeNumbers>, up_to: int)
    ensures
        0 <= before_end(numbers, up_to) <= numbers.len(),
        before_end(numbers, up_to) < numbers.len() ==> numbers[before_end(
            numbers,
            up_to,
        )].ts_micros >= up_to,
    decreases numbers.len(),
{
    if numbers.len() > 0 {
        lemma_first_behind_end(numbers.drop_last(), up_to);
    }
}

/// Which item each trade is read from.
proof fn lemma_trades_from_items(
    items: Seq<Json>,
) -> (at: Seq<int>)
    ensures
        ({
            let trades = trades_of(items);
            &&& at.len() == trades.len()
            &&& forall|i: int, j: int| 0 <= i < j < at.len() ==> #[trigger] at[i] < #[trigger] at[j]
            &&& forall|i: int|
                0 <= i < at.len() ==> {
                    let k = #[trigger] at[i];
                    0 <= k < items.len() && trade_of(items[k]) is Some
                        && Some(trades[i]) == trade_of(items[k])
                }
            &&& forall|k: int|
                0 <= k < items.len() && trade_of(items[k]) is Some
                    ==> #[trigger] at.contains(k)
        }),
    decreases items.len(),
{
    if items.len() == 0 {
        Seq::empty()
    } else {
        let last = items.len() - 1;
        let before = lemma_trades_from_items(items.drop_last());
        let earlier = trades_of(items.drop_last());
        let trades = trades_of(items);
        let at = if trades.len() > earlier.len() {
            before.push(last)
        } else {
            before
        };
        assert forall|i: int| 0 <= i < at.len() implies {
            let k = #[trigger] at[i];
            0 <= k < items.len() && trade_of(items[k]) is Some
                && Some(trades[i]) == trade_of(items[k])
        } by {
            if i < before.len() {
                assert(at[i] == before[i]);
                assert(trades[i] == earlier[i]);
            }
        }
        assert forall|i: int, j: int| 0 <= i < j < at.len() implies #[trigger] at[i]
            < #[trigger] at[j] by {
            assert(at[i] == before[i]);
            if j < before.len() {
                assert(at[j] == before[j]);
            }
        }
        assert forall|k: int|
            0 <= k < items.len()
                && trade_of(items[k]) is Some implies #[trigger] at.contains(k) by {
            if k < last {
                assert(before.contains(k));
                let i = choose|i: int| 0 <= i < before.len() && before[i] == k;
                assert(at[i] == k);
            } else {
                assert(at[at.len() - 1] == k);
            }
        }
        at
    }
}

/// The trades of a list are read item by item and field by field: of an array the
/// first value is the price, the second the volume, the third the time and the
/// fourth the letter of the side, `b` for a buy and `s` for a sell. A field that is
/// not of its kind counts as empty, and as zero where it is the time. Arrays of
/// fewer values, and what is no array, are passed over; nothing else is.
pub proof fn law_trades_are_read_field_by_field(items: Seq<Json>, trades: Seq<RawTrade>) -> (at:
    Seq<int>)
    requires
        trade_models(trades) == trades_of(items),
    ensures
        at.len() == trades.len(),
        forall|i: int, j: int| 0 <= i < j < at.len() ==> #[trigger] at[i] < #[trigger] at[j],
        forall|i: int|
            0 <= i < at.len() ==> {
                let k = #[trigger] at[i];
                &&& 0 <= k < items.len()
                &&& items[k] matches Json::Array(v) && {
                    &&& v@.len() >= 4
                    &&& trades[i].price@ == (match v@[0] {
                        Json::Text(s) => s@,
                        _ => Seq::<char>::empty(),
                    })
                    &&& trades[i].volume@ == (match v@[1] {
                        Json::Text(s) => s@,
                        _ => Seq::<char>::empty(),
                    })
                    &&& trades[i].time == (match v@[2] {
                        Json::Number(n) => n,
                        _ => Binary64 { bits: 0 },
                    })
                    &&& match v@[3] {
                        Json::Text(s) => if s@ == "b"@ {
                            trades[i].side matches Some(side) && side@ == "buy"@
                        } else if s@ == "s"@ {
                            trades[i].side matches Some(side) && side@ == "sell"@
                        } else {
                            trades[i].side is None
                        },
                        _ => trades[i].side is None,
                    }
                }
            },
        forall|k: int|
            0 <= k < items.len() && (items[k] matches Json::Array(v) && v@.len() >= 4)
                ==> #[trigger] at.contains(k),
{
    reveal_strlit("b");
    reveal_strlit("s");
    assert("b"@.len() == 1 && "s"@.len() == 1 && "b"@[0] != "s"@[0]);
    let at = lemma_trades_from_items(items);
    assert forall|i: int| 0 <= i < at.len() implies trade_of(items[#[trigger] at[i]]) == Some(
        trades[i]@,
    ) by {
        assert(trade_models(trades)[i] == trades[i]@);
    }
    assert forall|k: int|
        0 <= k < items.len() && (items[k] matches Json::Array(v) && v@.len()
            >= 4) implies #[trigger] at.contains(k) by {
        assert(trade_of(items[k]) is Some);
    }
    at
}

/// The list of trades is the first array of the result that is not under `last`.
pub proof fn law_the_trades_are_the_first_array(members: Seq<(String, Json)>, k: int)
    requires
        0 <= k <= members.len(),
        forall|i: int|
            0 <= i < k ==> (#[trigger] members[i]).0@ == "last"@ || !(members[i].1 is Array),
    ensures
        k < members.len() && members[k].0@ != "last"@ ==> (members[k].1 matches Json::Array(v)
            ==> trade_list(members) == Some(v@)),
        k == members.len() ==> trade_list(members) is None,
    decreases k,
{
    if k > 0 {
        let rest = members.skip(1);
        assert(members[0].0@ == "last"@ || !(members[0].1 is Array));
        assert forall|i: int| 0 <= i < k - 1 implies (#[trigger] rest[i]).0@ == "last"@
            || !(rest[i].1 is Array) by {
            assert(rest[i] == members[i + 1]);
        }
        law_the_trades_are_the_first_array(rest, k - 1);
        if k < members.len() {
            assert(rest[k - 1] == members[k]);
        }
    }
}

/// What a reply says of an answer. Errors that are listed come before all else;
/// then the result has to be there, then its list of trades, then the instant to
/// go on at, which is the number that the text under `last` stands for. The page
/// has the trades of the list and this instant.
pub proof fn law_replies_say_what_the_answer_says(answer: Json, reply: KrakenReply)
    requires
        reads(answer, reply),
    ensures
        ({
            let errors = answer.field("error"@) matches Some(Json::Array(v)) && v@.len() > 0;
            let result = answer.field("result"@);
            &&& reply is ApiError <==> errors
            &&& !errors ==> match result {
                Some(Json::Object(m)) => {
                    let next = match member(m@, "last"@) {
                        Some(Json::Text(s)) => match integer_value(s@) {
                            Some(t) => if i64::MIN <= t <= i64::MAX {
                                Some(t)
                            } else {
                                None
                            },
                            None => None,
                        },
                        _ => None,
                    };
                    match trade_list(m@) {
                        None => reply is NoTrades,
                        Some(items) => if next is None {
                            reply is NoCursor
                        } else if items.len() == 0 {
                            reply is Empty
                        } else {
                            reply matches KrakenReply::Page { trades, next_since } && Some(
                                next_since as int,
                            ) == next && trade_models(trades@) == trades_of(items)
                        },
                    }
                },
                _ => reply is NoResult,
            }
        }),
{
    law_only_objects_have_fields(answer, "error"@);
    if let Some(e) = answer.field("error"@) {
        law_only_objects_have_fields(e, "error"@);
    }
    if let Some(r) = answer.field("result"@) {
        law_only_objects_have_fields(r, "last"@);
        if let Json::Object(m) = r {
            if let Some(v) = member(m@, "last"@) {
                law_only_objects_have_fields(v, "last"@);
            }
        }
    }
}

/// A page leads on to the instant that it names, or ends the run: where one of its
/// trades lies at or behind the end of the range, or where it names no later
/// instant. Its rows are offered, and how far the run has come is the time of the
/// last row gathered.
pub proof fn law_a_page_leads_to_the_instant_it_names(m: KrakenModel, page: PageModel)
    ensures
        ({
            let after = m.take(page);
            let reaches = exists|i: int|
                0 <= i < page.numbers.len() && (#[trigger] page.numbers[i]).ts_micros >= m.up_to;
            &&& after.up_to == m.up_to
            &&& after.done <==> reaches || page.next_since <= m.since_ns
            &&& !after.done ==> after.since_ns == page.next_since
            &&& after.done ==> after.since_ns == m.since_ns
            &&& after.ledger == m.ledger.offer_all(
                page_rows(page.trades, page.numbers, m.up_to),
            )
            &&& after.ledger.buf.len() > 0 ==> after.reached == Some(
                after.ledger.buf.last().ts_micros,
            )
            &&& after.ledger.buf.len() == 0 ==> after.reached == m.reached
        }),
{
    let n = before_end(page.numbers, m.up_to);
    lemma_before_end(page.numbers, m.up_to);
    lemma_first_behind_end(page.numbers, m.up_to);
    if n < page.numbers.len() {
        assert(page.numbers[n].ts_micros >= m.up_to);
    }
}

} // verus!
