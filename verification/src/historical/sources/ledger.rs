//! Rows of the month being fetched, held back until the month is complete.
//!
//! Rows are gathered in memory and handed out to be written once per month:
//! when a row of another month arrives, or at the end of a run. The cursor is
//! handed out to be kept only together with the rows it stands for. A source
//! whose pages overlap moves it on in memory behind every page.

use vstd::prelude::*;

use crate::calendar::{dated, month_of, place_month, placeable, utc_text};
use crate::historical::cursor::Cursor;
use crate::historical::schema::TradeRow;
use crate::historical::sources::FetchError;
use crate::historical::store::row_month;

verus! {

/// The rows of a month to write, and the cursor to keep once they are written.
pub struct MonthFlush {
    pub rows: Vec<TradeRow>,
    pub cursor: Cursor,
}

/// What was handed out to be written: the rows, the timestamp that the cursor
/// then stands at, and its count of rows.
pub struct FlushModel {
    pub rows: Seq<TradeRow>,
    pub last_ts: i64,
    pub rows_written: int,
}

impl View for MonthFlush {
    type V = FlushModel;

    open spec fn view(&self) -> FlushModel {
        FlushModel {
            rows: self.rows@,
            last_ts: self.cursor.last_ts_micros->0,
            rows_written: self.cursor.rows_written as int,
        }
    }
}

impl MonthFlush {
    /// Whether the cursor is complete: it has its timestamp, and the text of it.
    pub open spec fn labelled(self) -> bool {
        &&& self.cursor.last_ts_micros is Some
        &&& self.cursor.last_ts_human matches Some(s) && s@ == utc_text(
            dated(self.cursor.last_ts_micros->0 as int),
        )
    }
}

/// What flushes hand out.
pub open spec fn flush_models(flushes: Seq<MonthFlush>) -> Seq<FlushModel> {
    flushes.map_values(|f: MonthFlush| f@)
}

/// Whether all flushes have complete cursors.
pub open spec fn all_labelled(flushes: Seq<MonthFlush>) -> bool {
    forall|i: int| 0 <= i < flushes.len() ==> (#[trigger] flushes[i]).labelled()
}

/// The state of a run over an exchange's history: the month being gathered, its
/// rows, where the cursor stands, the rows counted, and all that has been
/// handed out.
pub struct LedgerModel {
    pub key: Option<(i32, u32)>,
    pub buf: Seq<TradeRow>,
    pub last_ts: Option<i64>,
    pub rows_written: int,
    pub total: int,
    pub written: Seq<FlushModel>,
}

impl LedgerModel {
    /// Hands the gathered rows out, if there are any.
    pub open spec fn flush(self) -> LedgerModel {
        if self.buf.len() == 0 {
            self
        } else {
            let n = self.buf.len() as int;
            LedgerModel {
                buf: Seq::empty(),
                last_ts: Some(self.buf.last().ts_micros),
                rows_written: self.rows_written + n,
                total: self.total + n,
                written: self.written.push(
                    FlushModel {
                        rows: self.buf,
                        last_ts: self.buf.last().ts_micros,
                        rows_written: self.rows_written + n,
                    },
                ),
                ..self
            }
        }
    }

    /// Gathers a row; the rows of another month are handed out first.
    pub open spec fn push(self, row: TradeRow) -> LedgerModel {
        let key = row_month(row);
        let l = if self.key is Some && self.key != Some(key) {
            self.flush()
        } else {
            self
        };
        LedgerModel { key: Some(key), buf: l.buf.push(row), ..l }
    }

    /// Whether the cursor stands at or behind a timestamp.
    pub open spec fn covers(self, ts: int) -> bool {
        self.last_ts matches Some(c) && ts <= c
    }

    /// Gathers a row unless the cursor stands at or behind it already.
    pub open spec fn offer(self, row: TradeRow) -> LedgerModel {
        if self.covers(row.ts_micros as int) {
            self
        } else {
            self.push(row)
        }
    }

    /// Gathers rows one after the other.
    pub open spec fn push_all(self, rows: Seq<TradeRow>) -> LedgerModel
        decreases rows.len(),
    {
        if rows.len() == 0 {
            self
        } else {
            self.push_all(rows.drop_last()).push(rows.last())
        }
    }

    /// Offers rows one after the other.
    pub open spec fn offer_all(self, rows: Seq<TradeRow>) -> LedgerModel
        decreases rows.len(),
    {
        if rows.len() == 0 {
            self
        } else {
            self.offer_all(rows.drop_last()).offer(rows.last())
        }
    }

    /// Whether every row, when its turn to be offered comes, is left out or can
    /// be placed in a month.
    pub open spec fn can_offer(self, rows: Seq<TradeRow>) -> bool
        decreases rows.len(),
    {
        rows.len() == 0 || {
            let ts = rows.last().ts_micros as int;
            &&& self.can_offer(rows.drop_last())
            &&& self.offer_all(rows.drop_last()).covers(ts) || placeable(ts)
        }
    }

    /// Moves the cursor on to the last gathered row, where that is later.
    pub open spec fn settle(self) -> LedgerModel {
        if self.buf.len() > 0 && !self.covers(self.buf.last().ts_micros as int) {
            LedgerModel { last_ts: Some(self.buf.last().ts_micros), ..self }
        } else {
            self
        }
    }

    /// Whether so many more rows can be gathered and counted.
    pub open spec fn has_room(self, rows: int) -> bool {
        &&& self.rows_written + self.buf.len() + rows <= u64::MAX
        &&& self.total + self.buf.len() + rows <= u64::MAX
    }

    /// The same state with nothing handed out yet.
    pub open spec fn afresh(self) -> LedgerModel {
        LedgerModel { written: Seq::empty(), ..self }
    }

    /// Whether the gathered rows are all of the month being gathered.
    pub open spec fn in_one_month(self) -> bool {
        forall|i: int|
            0 <= i < self.buf.len() ==> self.key == Some(row_month(#[trigger] self.buf[i]))
    }
}

/// The state in which a run starts at a cursor, with the rows that the shard of
/// the cursor's month holds already.
pub open spec fn started(
    cursor: Cursor,
    key: Option<(i32, u32)>,
    seed: Seq<TradeRow>,
) -> LedgerModel {
    LedgerModel {
        key: if seed.len() > 0 {
            key
        } else {
            None
        },
        buf: seed,
        last_ts: cursor.last_ts_micros,
        rows_written: cursor.rows_written as int,
        total: 0,
        written: Seq::empty(),
    }
}

/// The run over one exchange's history.
pub struct MonthLedger {
    month_key: Option<(i32, u32)>,
    month_buf: Vec<TradeRow>,
    cursor: Cursor,
    total_rows: u64,
}

impl View for MonthLedger {
    type V = LedgerModel;

    closed spec fn view(&self) -> LedgerModel {
        LedgerModel {
            key: self.month_key,
            buf: self.month_buf@,
            last_ts: self.cursor.last_ts_micros,
            rows_written: self.cursor.rows_written as int,
            total: self.total_rows as int,
            written: Seq::empty(),
        }
    }
}

/// The month whose shard a run continues, where its cursor has one.
pub fn seed_month(cursor: &Cursor) -> (r: Result<Option<(i32, u32)>, FetchError>)
    ensures
        match cursor.last_ts_micros {
            None => r == Ok::<Option<(i32, u32)>, FetchError>(None),
            Some(c) => if placeable(c as int) {
                r == Ok::<Option<(i32, u32)>, FetchError>(Some(month_of(c as int)))
            } else {
                r == Err::<Option<(i32, u32)>, FetchError>(FetchError::InvalidCursor)
            },
        },
{
    match cursor.last_ts_micros {
        None => Ok(None),
        Some(c) => match place_month(c) {
            Some(key) => Ok(Some(key)),
            None => Err(FetchError::InvalidCursor),
        },
    }
}

impl MonthLedger {
    /// Starts a run at a cursor, with the rows that the shard of the cursor's
    /// month holds already.
    pub fn resume(cursor: Cursor, key: Option<(i32, u32)>, seed: Vec<TradeRow>) -> (l: Self)
        ensures
            l@ == started(cursor, key, seed@),
    {
        let month_key = if seed.len() > 0 {
            key
        } else {
            None
        };
        MonthLedger { month_key, month_buf: seed, cursor, total_rows: 0 }
    }

    /// Tests whether so many more rows can be gathered and counted.
    pub fn has_room(&self, rows: usize) -> (r: bool)
        ensures
            r == self@.has_room(rows as int),
    {
        let more: u128 = self.month_buf.len() as u128 + rows as u128;
        self.cursor.rows_written as u128 + more <= u64::MAX as u128 && self.total_rows as u128
            + more <= u64::MAX as u128
    }

    /// Rows handed out so far.
    pub fn total_rows(&self) -> (n: u64)
        ensures
            n == self@.total,
    {
        self.total_rows
    }

    /// The timestamp of the row gathered last, where there is one.
    pub fn last_gathered(&self) -> (t: Option<i64>)
        ensures
            t == (if self@.buf.len() > 0 {
                Some(self@.buf.last().ts_micros)
            } else {
                None
            }),
    {
        if self.month_buf.len() > 0 {
            Some(self.month_buf[self.month_buf.len() - 1].ts_micros)
        } else {
            None
        }
    }

    /// Tests whether the cursor stands at or behind a timestamp.
    pub fn has_stored(&self, ts_micros: i64) -> (r: bool)
        ensures
            r == self@.covers(ts_micros as int),
            r == match self@.last_ts {
                Some(c) => ts_micros <= c,
                None => false,
            },
    {
        self.cursor.has_stored(ts_micros)
    }

    /// Hands the gathered rows out, if there are any.
    pub fn flush(&mut self) -> (out: Option<MonthFlush>)
        requires
            old(self)@.has_room(0),
        ensures
            ({
                let after = old(self)@.flush();
                &&& final(self)@ == after.afresh()
                &&& match out {
                    Some(f) => after.written == seq![f@] && f.labelled(),
                    None => after.written == Seq::<FlushModel>::empty(),
                }
            }),
    {
        if self.month_buf.len() == 0 {
            return None;
        }
        let n: u64 = self.month_buf.len() as u64;
        let last_ts: i64 = self.month_buf[self.month_buf.len() - 1].ts_micros;
        let mut rows: Vec<TradeRow> = Vec::new();
        std::mem::swap(&mut rows, &mut self.month_buf);
        self.cursor.advance(last_ts, n);
        self.total_rows = self.total_rows + n;
        let cursor = self.cursor.clone();
        let out = MonthFlush { rows, cursor };
        assert(old(self)@.flush().written =~= seq![out@]);
        Some(out)
    }

    /// Gathers a row. The rows of another month are handed out first.
    pub fn push(&mut self, row: TradeRow) -> (out: Option<MonthFlush>)
        requires
            old(self)@.has_room(1),
            placeable(row.ts_micros as int),
        ensures
            ({
                let after = old(self)@.push(row);
                &&& final(self)@ == after.afresh()
                &&& match out {
                    Some(f) => after.written == seq![f@] && f.labelled(),
                    None => after.written == Seq::<FlushModel>::empty(),
                }
            }),
    {
        let key = place_month(row.ts_micros).unwrap();
        let crossed = match self.month_key {
            Some(k) => k.0 != key.0 || k.1 != key.1,
            None => false,
        };
        let out = if crossed {
            self.flush()
        } else {
            None
        };
        self.month_key = Some(key);
        self.month_buf.push(row);
        out
    }

    /// Moves the cursor on in memory to the last gathered row.
    pub fn settle(&mut self)
        ensures
            final(self)@ == old(self)@.settle(),
    {
        match self.last_gathered() {
            Some(last_ts) => if !self.cursor.has_stored(last_ts) {
                self.cursor.advance(last_ts, 0);
            },
            None => {},
        }
    }

    /// Tests whether rows can be offered: whether each, when its turn comes, is left
    /// out or can be placed in a month.
    pub fn can_offer(&self, rows: &Vec<TradeRow>) -> (r: bool)
        ensures
            r == self@.can_offer(rows@),
    {
        let mut key = self.month_key;
        let mut gathered = self.last_gathered();
        let mut last_ts = self.cursor.last_ts_micros;
        assert(rows@.take(0) =~= Seq::<TradeRow>::empty());
        for i in 0..rows.len()
            invariant
                self@.can_offer(rows@.take(i as int)),
                ({
                    let m = self@.offer_all(rows@.take(i as int));
                    &&& key == m.key
                    &&& last_ts == m.last_ts
                    &&& gathered == (if m.buf.len() > 0 {
                        Some(m.buf.last().ts_micros)
                    } else {
                        None
                    })
                }),
        {
            let ts: i64 = rows[i].ts_micros;
            let ghost row = rows@[i as int];
            assert(rows@.take(i + 1).drop_last() =~= rows@.take(i as int));
            assert(rows@.take(i + 1).last() == row);
            let covered = match last_ts {
                Some(c) => ts <= c,
                None => false,
            };
            if !covered {
                match place_month(ts) {
                    Some(k) => {
                        let crossed = match key {
                            Some(before) => before.0 != k.0 || before.1 != k.1,
                            None => false,
                        };
                        if crossed && gathered.is_some() {
                            last_ts = gathered;
                        }
                        key = Some(k);
                        gathered = Some(ts);
                    },
                    None => {
                        proof {
                            if self@.can_offer(rows@) {
                                lemma_can_offer_prefix(self@, rows@, i + 1);
                            }
                        }
                        return false;
                    },
                }
            }
        }
        assert(rows@.take(rows@.len() as int) =~= rows@);
        true
    }

    /// Offers rows one after the other. Those that the cursor has passed are
    /// left out, and complete months are handed out.
    pub fn offer_all(&mut self, rows: &Vec<TradeRow>) -> (flushes: Vec<MonthFlush>)
        requires
            old(self)@.has_room(rows@.len() as int),
            old(self)@.can_offer(rows@),
        ensures
            ({
                let after = old(self)@.offer_all(rows@);
                &&& final(self)@ == after.afresh()
                &&& flush_models(flushes@) == after.written
                &&& all_labelled(flushes@)
            }),
    {
        let mut flushes: Vec<MonthFlush> = Vec::new();
        let ghost start = self@;
        assert(flush_models(flushes@) =~= Seq::<FlushModel>::empty());
        assert(rows@.take(0) =~= Seq::<TradeRow>::empty());
        for i in 0..rows.len()
            invariant
                start.written == Seq::<FlushModel>::empty(),
                self@ == start.offer_all(rows@.take(i as int)).afresh(),
                flush_models(flushes@) == start.offer_all(rows@.take(i as int)).written,
                all_labelled(flushes@),
                self@.has_room(rows@.len() - i),
                start.can_offer(rows@),
        {
            let row = rows[i];
            let ghost so_far = start.offer_all(rows@.take(i as int));
            let ghost held = flushes@;
            assert(rows@.take(i + 1).drop_last() =~= rows@.take(i as int));
            assert(rows@.take(i + 1).last() == row);
            proof {
                lemma_can_offer_prefix(start, rows@, i + 1);
            }
            if !self.has_stored(row.ts_micros) {
                let out = self.push(row);
                proof {
                    lemma_push_afresh(so_far, row);
                }
                match out {
                    Some(f) => {
                        flushes.push(f);
                        assert(flush_models(flushes@) =~= flush_models(held) + seq![f@]);
                    },
                    None => {
                        assert(flush_models(held) + Seq::<FlushModel>::empty() =~= flush_models(
                            held,
                        ));
                    },
                }
            }
        }
        assert(rows@.take(rows@.len() as int) =~= rows@);
        flushes
    }

    /// Gathers rows one after the other. Complete months are handed out.
    pub fn push_all(&mut self, rows: &Vec<TradeRow>) -> (flushes: Vec<MonthFlush>)
        requires
            old(self)@.has_room(rows@.len() as int),
            forall|i: int|
                0 <= i < rows@.len() ==> placeable((#[trigger] rows@[i]).ts_micros as int),
        ensures
            ({
                let after = old(self)@.push_all(rows@);
                &&& final(self)@ == after.afresh()
                &&& flush_models(flushes@) == after.written
                &&& all_labelled(flushes@)
            }),
    {
        let mut flushes: Vec<MonthFlush> = Vec::new();
        let ghost start = self@;
        assert(flush_models(flushes@) =~= Seq::<FlushModel>::empty());
        assert(rows@.take(0) =~= Seq::<TradeRow>::empty());
        for i in 0..rows.len()
            invariant
                start.written == Seq::<FlushModel>::empty(),
                self@ == start.push_all(rows@.take(i as int)).afresh(),
                flush_models(flushes@) == start.push_all(rows@.take(i as int)).written,
                all_labelled(flushes@),
                self@.has_room(rows@.len() - i),
                forall|i: int|
                    0 <= i < rows@.len() ==> placeable((#[trigger] rows@[i]).ts_micros as int),
        {
            let row = rows[i];
            let ghost so_far = start.push_all(rows@.take(i as int));
            let ghost held = flushes@;
            assert(rows@.take(i + 1).drop_last() =~= rows@.take(i as int));
            assert(rows@.take(i + 1).last() == row);
            let out = self.push(row);
            proof {
                lemma_push_afresh(so_far, row);
            }
            match out {
                Some(f) => {
                    flushes.push(f);
                    assert(flush_models(flushes@) =~= flush_models(held) + seq![f@]);
                },
                None => {
                    assert(flush_models(held) + Seq::<FlushModel>::empty() =~= flush_models(held));
                },
            }
        }
        assert(rows@.take(rows@.len() as int) =~= rows@);
        flushes
    }
}

/// Rows that can be offered can be offered in part.
proof fn lemma_can_offer_prefix(l: LedgerModel, rows: Seq<TradeRow>, k: int)
    requires
        0 <= k <= rows.len(),
        l.can_offer(rows),
    ensures
        l.can_offer(rows.take(k)),
    decreases rows.len(),
{
    if k < rows.len() {
        assert(rows.drop_last().take(k) =~= rows.take(k));
        lemma_can_offer_prefix(l, rows.drop_last(), k);
    } else {
        assert(rows.take(k) =~= rows);
    }
}

/// What has been handed out before plays no part in gathering a row.
pub proof fn lemma_push_afresh(l: LedgerModel, row: TradeRow)
    ensures
        l.push(row).afresh() == l.afresh().push(row).afresh(),
        l.push(row).written == l.written + l.afresh().push(row).written,
{
    assert(l.push(row).written =~= l.written + l.afresh().push(row).written);
}

/// The cursor has passed a row exactly where the row's time is not later than the
/// cursor's.
pub proof fn law_the_cursor_has_passed_what_is_not_later(l: LedgerModel, ts: int)
    ensures
        l.last_ts is None ==> !l.covers(ts),
        l.last_ts matches Some(c) ==> (l.covers(ts) <==> ts <= c),
{
}

/// Gathering a row puts it behind the others of its month. Where the others are of
/// another month, they are handed out first, all of them and in one go, counted,
/// and with the cursor at the last of them; then the row stands alone.
pub proof fn law_a_row_stands_with_its_month(l: LedgerModel, row: TradeRow)
    ensures
        ({
            let after = l.push(row);
            let month = month_of(dated(row.ts_micros as int));
            let n = l.buf.len();
            &&& after.key == Some(month)
            &&& l.key is None || l.key == Some(month) || n == 0 ==> {
                &&& after.buf == l.buf.push(row)
                &&& after.written == l.written
                &&& after.last_ts == l.last_ts
                &&& after.rows_written == l.rows_written
                &&& after.total == l.total
            }
            &&& l.key is Some && l.key != Some(month) && n > 0 ==> {
                &&& after.buf == seq![row]
                &&& after.written.len() == l.written.len() + 1
                &&& after.written.drop_last() == l.written
                &&& after.written.last().rows == l.buf
                &&& after.written.last().last_ts == l.buf[n - 1].ts_micros
                &&& after.written.last().rows_written == l.rows_written + n
                &&& after.last_ts == Some(l.buf[n - 1].ts_micros)
                &&& after.rows_written == l.rows_written + n
                &&& after.total == l.total + n
            }
        }),
{
    let after = l.push(row);
    if l.key is Some && l.key != Some(row_month(row)) && l.buf.len() > 0 {
        assert(after.buf =~= seq![row]);
        assert(after.written.drop_last() =~= l.written);
    }
}

/// A row that is offered is gathered exactly where it is later than the cursor.
pub proof fn law_only_later_rows_are_gathered(l: LedgerModel, row: TradeRow)
    ensures
        (l.last_ts matches Some(c) && row.ts_micros <= c) ==> l.offer(row) == l,
        (l.last_ts matches Some(c) ==> row.ts_micros > c) ==> l.offer(row) == l.push(row),
{
}

/// Rows are gathered and offered one by one, in their order.
pub proof fn law_rows_are_taken_one_by_one(l: LedgerModel, rows: Seq<TradeRow>, row: TradeRow)
    ensures
        l.push_all(Seq::empty()) == l,
        l.offer_all(Seq::empty()) == l,
        l.push_all(rows.push(row)) == l.push_all(rows).push(row),
        l.offer_all(rows.push(row)) == l.offer_all(rows).offer(row),
{
    assert(rows.push(row).drop_last() =~= rows);
}

/// At the end all that is gathered is handed out in one go, counted, and with the
/// cursor at the last row; where nothing is gathered nothing happens.
pub proof fn law_the_rest_is_handed_out_whole(l: LedgerModel)
    ensures
        l.buf.len() == 0 ==> l.flush() == l,
        l.buf.len() > 0 ==> {
            let (after, n) = (l.flush(), l.buf.len());
            &&& after.buf.len() == 0
            &&& after.written.len() == l.written.len() + 1
            &&& after.written.drop_last() == l.written
            &&& after.written.last().rows == l.buf
            &&& after.written.last().last_ts == l.buf[n - 1].ts_micros
            &&& after.written.last().rows_written == l.rows_written + n
            &&& after.last_ts == Some(l.buf[n - 1].ts_micros)
            &&& after.rows_written == l.rows_written + n
            &&& after.total == l.total + n
        },
{
    if l.buf.len() > 0 {
        assert(l.flush().written.drop_last() =~= l.written);
    }
}

/// Settling moves the cursor to the last row gathered where that is later, and
/// changes nothing else.
pub proof fn law_settling_moves_the_cursor_only(l: LedgerModel)
    ensures
        ({
            let after = l.settle();
            let n = l.buf.len();
            &&& after.buf == l.buf
            &&& after.key == l.key
            &&& after.written == l.written
            &&& after.rows_written == l.rows_written
            &&& after.total == l.total
            &&& n == 0 ==> after.last_ts == l.last_ts
            &&& n > 0 ==> after.last_ts == (match l.last_ts {
                Some(c) => if c < l.buf[n - 1].ts_micros {
                    Some(l.buf[n - 1].ts_micros)
                } else {
                    Some(c)
                },
                None => Some(l.buf[n - 1].ts_micros),
            })
        }),
{
}

/// A run starts with what its cursor says and what the shard of the cursor's month
/// holds, and has handed nothing out.
pub proof fn law_runs_start_with_the_shard_of_the_cursor(
    cursor: Cursor,
    key: Option<(i32, u32)>,
    seed: Seq<TradeRow>,
)
    ensures
        ({
            let l = started(cursor, key, seed);
            &&& l.buf == seed
            &&& l.last_ts == cursor.last_ts_micros
            &&& l.rows_written == cursor.rows_written
            &&& l.total == 0
            &&& l.written.len() == 0
            &&& seed.len() > 0 ==> l.key == key
            &&& seed.len() == 0 ==> l.key is None
        }),
{
}

/// What is handed out is the rows and the cursor as they are.
pub proof fn law_flushes_are_what_they_hold(flushes: Seq<MonthFlush>, i: int)
    requires
        0 <= i < flushes.len(),
    ensures
        flush_models(flushes).len() == flushes.len(),
        flush_models(flushes)[i].rows == flushes[i].rows@,
        flush_models(flushes)[i].rows_written == flushes[i].cursor.rows_written,
        flushes[i].cursor.last_ts_micros matches Some(t) ==> flush_models(flushes)[i].last_ts == t,
        all_labelled(flushes) ==> flushes[i].cursor.last_ts_micros is Some
            && flushes[i].cursor.last_ts_human is Some,
{
}

/// There is room for rows exactly where they can be counted in 64 bits, together
/// with those gathered and those counted before, over this run and over all.
pub proof fn law_room_ends_where_counts_do(l: LedgerModel, rows: int)
    ensures
        l.has_room(rows) <==> l.rows_written + l.buf.len() + rows <= 0xFFFF_FFFF_FFFF_FFFF
            && l.total + l.buf.len() + rows <= 0xFFFF_FFFF_FFFF_FFFF,
{
}

/// Rows can be offered as long as each, when its turn comes, is not later than the
/// cursor or lies in the calendar.
pub proof fn law_rows_can_be_offered_one_by_one(
    l: LedgerModel,
    rows: Seq<TradeRow>,
    row: TradeRow,
)
    ensures
        l.can_offer(Seq::empty()),
        ({
            let m = l.offer_all(rows);
            let passed = m.last_ts is Some && row.ts_micros <= m.last_ts->0;
            l.can_offer(rows.push(row)) <==> l.can_offer(rows) && (passed || placeable(
                row.ts_micros as int,
            ))
        }),
{
    assert(rows.push(row).drop_last() =~= rows);
}

} // verus!
