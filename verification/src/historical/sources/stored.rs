//! What runs over an exchange's history leave behind in its store, one after the
//! other.

use vstd::prelude::*;

use crate::calendar::{dated, month_of, placeable};
use crate::historical::cursor::Cursor;
use crate::historical::schema::{ascending, TradeRow};
use crate::historical::sources::laws::{
    all_new, all_placed, flush_month, is_whole, law_covered_rows_change_nothing, led_on,
    lemma_covered_pages, lemma_new_rows, lemma_offer_concat, lemma_pages_stay_on_course,
    lemma_rows_stay_on_course, page_rows, settled_run, takes_up,
};
use crate::historical::sources::ledger::{started, FlushModel, LedgerModel};
use crate::historical::store::{has_month, month_rows, row_month, splits_by_month, ShardWrite};

verus! {

/// What an exchange's store holds: the rows of each month's shard, where the
/// saved cursor stands, and its count of rows.
pub struct StoreModel {
    pub shards: Map<(i32, u32), Seq<TradeRow>>,
    pub last_ts: Option<i64>,
    pub rows_written: int,
}

impl StoreModel {
    /// A store without shards and without a cursor.
    pub open spec fn blank() -> StoreModel {
        StoreModel { shards: Map::empty(), last_ts: None, rows_written: 0 }
    }

    /// The rows in the shard of the cursor's month.
    pub open spec fn seed(self) -> Seq<TradeRow> {
        match self.last_ts {
            Some(c) => if self.shards.contains_key(month_of(c as int)) {
                self.shards[month_of(c as int)]
            } else {
                Seq::empty()
            },
            None => Seq::empty(),
        }
    }

    /// The state in which a run over the store starts.
    pub open spec fn reopen(self) -> LedgerModel {
        LedgerModel {
            key: match self.last_ts {
                Some(c) => if self.seed().len() > 0 {
                    Some(month_of(c as int))
                } else {
                    None
                },
                None => None,
            },
            buf: self.seed(),
            last_ts: self.last_ts,
            rows_written: self.rows_written,
            total: 0,
            written: Seq::empty(),
        }
    }

    /// The store behind a month that was handed out: its shard is replaced and
    /// the cursor saved.
    pub open spec fn put(self, f: FlushModel) -> StoreModel {
        StoreModel {
            shards: self.shards.insert(flush_month(f), f.rows),
            last_ts: Some(f.last_ts),
            rows_written: f.rows_written,
        }
    }

    /// The store behind all that was handed out.
    pub open spec fn put_all(self, written: Seq<FlushModel>) -> StoreModel
        decreases written.len(),
    {
        if written.len() == 0 {
            self
        } else {
            self.put_all(written.drop_last()).put(written.last())
        }
    }

    /// The store behind a run that was offered rows.
    pub open spec fn after(self, rows: Seq<TradeRow>) -> StoreModel {
        self.put_all(self.reopen().offer_all(rows).flush().written)
    }

    /// The store behind a run over pages of rows that moved its cursor on behind
    /// each.
    pub open spec fn after_pages(self, pages: Seq<Seq<TradeRow>>) -> StoreModel {
        self.put_all(settled_run(self.reopen(), pages).flush().written)
    }

    /// Whether two stores have the same rows in the same shards, and their
    /// cursors stand at the same timestamp.
    pub open spec fn same_rows(self, other: StoreModel) -> bool {
        self.shards == other.shards && self.last_ts == other.last_ts
    }
}

/// A run starts in the state that its store gives: from the saved cursor, the
/// month of it, and the rows of that month's shard.
pub proof fn law_runs_start_from_the_store(
    store: StoreModel,
    cursor: Cursor,
    key: Option<(i32, u32)>,
    seed: Seq<TradeRow>,
)
    requires
        cursor.last_ts_micros == store.last_ts,
        cursor.rows_written == store.rows_written,
        seed == store.seed(),
        key == (match store.last_ts {
            Some(c) => Some(month_of(c as int)),
            None => None,
        }),
    ensures
        started(cursor, key, seed) == store.reopen(),
{
}

/// A month that was handed out whole is written to one shard, its own, with all
/// its rows.
pub proof fn law_a_whole_month_is_one_shard(
    f: FlushModel,
    writes: Seq<ShardWrite>,
    root: Seq<char>,
    exchange: Seq<char>,
)
    requires
        is_whole(f),
        splits_by_month(writes, f.rows, root, exchange),
    ensures
        writes.len() == 1,
        writes[0].key() == flush_month(f),
        writes[0].rows@ == f.rows,
{
    let key = flush_month(f);
    assert(has_month(writes, row_month(f.rows[0])));
    assert forall|i: int| 0 <= i < writes.len() implies (#[trigger] writes[i]).key() == key by {
        let w = writes[i];
        assert(w.rows@ == month_rows(f.rows, w.key()));
        lemma_month_rows_are_of_it(f.rows, w.key());
        let row = w.rows@[0];
        assert(f.rows.contains(row) && row_month(row) == w.key());
        let k = choose|k: int| 0 <= k < f.rows.len() && f.rows[k] == row;
        assert(row_month(f.rows[k]) == key);
    }
    if writes.len() > 1 {
        assert(writes[0].key() == writes[1].key());
    }
    lemma_all_rows_of_month(f.rows, key);
}

proof fn lemma_month_rows_are_of_it(rows: Seq<TradeRow>, key: (i32, u32))
    ensures
        forall|i: int|
            0 <= i < month_rows(rows, key).len() ==> rows.contains(
                #[trigger] month_rows(rows, key)[i],
            ) && row_month(month_rows(rows, key)[i]) == key,
{
    let pred = |row: TradeRow| row_month(row) == key;
    assert forall|i: int| 0 <= i < month_rows(rows, key).len() implies rows.contains(
        #[trigger] month_rows(rows, key)[i],
    ) && row_month(month_rows(rows, key)[i]) == key by {
        rows.lemma_filter_contains_rev(pred, month_rows(rows, key)[i]);
        rows.lemma_filter_pred(pred, i);
    }
}

proof fn lemma_all_rows_of_month(rows: Seq<TradeRow>, key: (i32, u32))
    requires
        forall|i: int| 0 <= i < rows.len() ==> row_month(#[trigger] rows[i]) == key,
    ensures
        month_rows(rows, key) == rows,
    decreases rows.len(),
{
    reveal(Seq::filter);
    if rows.len() > 0 {
        let head = rows.drop_last();
        assert forall|i: int| 0 <= i < head.len() implies row_month(#[trigger] head[i]) == key by {
            assert(head[i] == rows[i]);
        }
        lemma_all_rows_of_month(head, key);
        assert(row_month(rows[rows.len() - 1]) == key);
        assert(head.push(rows.last()) =~= rows);
    }
}

// ── Counts play no part ─────────────────────────────────────────────────────

/// Whether the same rows were handed out in the same months.
spec fn same_months(a: Seq<FlushModel>, b: Seq<FlushModel>) -> bool {
    &&& a.len() == b.len()
    &&& forall|i: int|
        0 <= i < a.len() ==> (#[trigger] a[i]).rows == b[i].rows && a[i].last_ts == b[i].last_ts
}

proof fn lemma_put_same_months(
    s: StoreModel,
    t: StoreModel,
    a: Seq<FlushModel>,
    b: Seq<FlushModel>,
)
    requires
        s.same_rows(t),
        same_months(a, b),
    ensures
        s.put_all(a).same_rows(t.put_all(b)),
    decreases a.len(),
{
    if a.len() > 0 {
        let (x, y) = (a.drop_last(), b.drop_last());
        assert forall|i: int| 0 <= i < x.len() implies (#[trigger] x[i]).rows == y[i].rows
            && x[i].last_ts == y[i].last_ts by {
            assert(x[i] == a[i]);
        }
        lemma_put_same_months(s, t, x, y);
        assert(a.last() == a[a.len() - 1]);
    }
}

proof fn lemma_put_concat(s: StoreModel, a: Seq<FlushModel>, b: Seq<FlushModel>)
    ensures
        s.put_all(a + b) == s.put_all(a).put_all(b),
    decreases b.len(),
{
    if b.len() == 0 {
        assert(a + b =~= a);
    } else {
        lemma_put_concat(s, a, b.drop_last());
        assert((a + b).drop_last() =~= a + b.drop_last());
    }
}

/// Whether one state is another with more handed out before it.
spec fn goes_on_from(y: LedgerModel, prefix: Seq<FlushModel>, x: LedgerModel) -> bool {
    &&& y.key == x.key
    &&& y.buf == x.buf
    &&& same_months(y.written, prefix + x.written)
}

proof fn lemma_flush_goes_on(y: LedgerModel, prefix: Seq<FlushModel>, x: LedgerModel)
    requires
        goes_on_from(y, prefix, x),
    ensures
        goes_on_from(y.flush(), prefix, x.flush()),
{
    if y.buf.len() > 0 {
        let (a, b) = (y.flush().written, prefix + x.flush().written);
        assert forall|i: int| 0 <= i < a.len() implies (#[trigger] a[i]).rows == b[i].rows
            && a[i].last_ts == b[i].last_ts by {
            if i < y.written.len() {
                assert(a[i] == y.written[i]);
                assert(b[i] == (prefix + x.written)[i]);
            }
        }
    }
}

proof fn lemma_pushes_go_on(
    y: LedgerModel,
    prefix: Seq<FlushModel>,
    x: LedgerModel,
    rows: Seq<TradeRow>,
)
    requires
        goes_on_from(y, prefix, x),
    ensures
        goes_on_from(y.push_all(rows), prefix, x.push_all(rows)),
    decreases rows.len(),
{
    if rows.len() > 0 {
        let head = rows.drop_last();
        lemma_pushes_go_on(y, prefix, x, head);
        lemma_flush_goes_on(y.push_all(head), prefix, x.push_all(head));
    }
}

// ── One run after another ───────────────────────────────────────────────────

/// Whether a run over the store can take up where an earlier one ended.
pub open spec fn in_good_order(store: StoreModel) -> bool {
    takes_up(store.reopen())
}

/// Behind a run that has handed something out, the store gives back the rows
/// handed out last, and the cursor at the last of them.
proof fn lemma_reopened(store: StoreModel, written: Seq<FlushModel>)
    requires
        written.len() > 0,
        is_whole(written.last()),
        placeable(written.last().last_ts as int),
    ensures
        ({
            let f = written.last();
            let l = store.put_all(written).reopen();
            &&& l.buf == f.rows
            &&& l.key == Some(flush_month(f))
            &&& l.last_ts == Some(f.last_ts)
            &&& l.written == Seq::<FlushModel>::empty()
            &&& takes_up(l)
        }),
{
    let f = written.last();
    assert(row_month(f.rows[f.rows.len() - 1]) == flush_month(f));
    assert(month_of(f.last_ts as int) == flush_month(f));
}

/// Storing what was fetched again changes nothing: where a second run is offered
/// only rows that the first was offered, every shard holds the same rows and the
/// cursor stands where it stood.
pub proof fn law_storing_again_changes_nothing(
    store: StoreModel,
    rows: Seq<TradeRow>,
    again: Seq<TradeRow>,
)
    requires
        in_good_order(store),
        ascending(rows),
        all_placed(rows),
        forall|i: int| 0 <= i < again.len() ==> rows.contains(#[trigger] again[i]),
    ensures
        store.after(rows).after(again).same_rows(store.after(rows)),
        in_good_order(store.after(rows)),
{
    let l = store.reopen();
    let m = l.offer_all(rows);
    let second = store.after(rows).reopen();
    lemma_rows_stay_on_course(l, rows);
    lemma_left_in_good_order(store, m, rows);
    assert forall|i: int| 0 <= i < again.len() implies second.covers(
        (#[trigger] again[i]).ts_micros as int,
    ) by {
        assert(rows.contains(again[i]));
    }
    law_covered_rows_change_nothing(second, again);
    lemma_idle_run(store.after(rows));
}

/// The same of runs that move their cursor on behind each page, over pages of
/// rows.
pub proof fn law_storing_pages_again_changes_nothing(
    store: StoreModel,
    pages: Seq<Seq<TradeRow>>,
    again: Seq<Seq<TradeRow>>,
)
    requires
        in_good_order(store),
        ascending(page_rows(pages)),
        all_placed(page_rows(pages)),
        forall|i: int|
            0 <= i < page_rows(again).len() ==> page_rows(pages).contains(
                #[trigger] page_rows(again)[i],
            ),
    ensures
        store.after_pages(pages).after_pages(again).same_rows(store.after_pages(pages)),
        in_good_order(store.after_pages(pages)),
{
    let l = store.reopen();
    let m = settled_run(l, pages);
    let rows = page_rows(pages);
    let second = store.after_pages(pages).reopen();
    lemma_pages_stay_on_course(l, pages);
    lemma_left_in_good_order(store, m, rows);
    assert forall|i: int| 0 <= i < page_rows(again).len() implies second.covers(
        (#[trigger] page_rows(again)[i]).ts_micros as int,
    ) by {
        assert(rows.contains(page_rows(again)[i]));
    }
    lemma_covered_pages(second, again);
    lemma_idle_run(store.after_pages(pages));
}

/// A run that was led on leaves the store in good order, with its cursor at or
/// behind every row.
proof fn lemma_left_in_good_order(store: StoreModel, m: LedgerModel, rows: Seq<TradeRow>)
    requires
        in_good_order(store),
        ascending(rows),
        led_on(store.reopen(), m, rows),
    ensures
        ({
            let once = store.put_all(m.flush().written);
            &&& in_good_order(once)
            &&& forall|row: TradeRow| #[trigger]
                rows.contains(row) ==> once.reopen().covers(row.ts_micros as int)
        }),
{
    let written = m.flush().written;
    let once = store.put_all(written);
    if written.len() > 0 {
        lemma_reopened(store, written);
    } else {
        assert(once == store);
    }
    assert forall|row: TradeRow| #[trigger] rows.contains(row) implies once.reopen().covers(
        row.ts_micros as int,
    ) by {
        let k = choose|k: int| 0 <= k < rows.len() && rows[k] == row;
        assert(rows[k].ts_micros <= rows[rows.len() - 1].ts_micros);
    }
}

/// A run that gathers nothing writes what is there already.
pub proof fn lemma_idle_run(once: StoreModel)
    requires
        in_good_order(once),
    ensures
        once.put_all(once.reopen().flush().written).same_rows(once),
{
    let second = once.reopen();
    let w = second.flush().written;
    if second.buf.len() > 0 {
        let g = w.last();
        assert(w =~= seq![g]);
        assert(w.drop_last() =~= Seq::<FlushModel>::empty());
        assert(once.put_all(w) == once.put_all(w.drop_last()).put(g));
        assert(once.put_all(w.drop_last()) == once);
        assert(second.key == Some(row_month(second.buf[0])));
        assert(once.shards.insert(flush_month(g), g.rows) =~= once.shards);
    }
}

/// Two runs over adjoining stretches leave behind what one run over both does:
/// every shard holds the same rows, and the cursor stands at the same timestamp.
pub proof fn law_adjoining_runs_make_one(
    store: StoreModel,
    a: Seq<TradeRow>,
    b: Seq<TradeRow>,
)
    requires
        in_good_order(store),
        ascending(a + b),
        all_new(store.reopen(), a + b),
        a.len() > 0 && b.len() > 0 ==> a.last().ts_micros < b[0].ts_micros,
    ensures
        store.after(a).after(b).same_rows(store.after(a + b)),
{
    let all = a + b;
    assert forall|i: int| 0 <= i < a.len() implies #[trigger] a[i] == all[i] by {}
    assert forall|i: int| 0 <= i < b.len() implies #[trigger] b[i] == all[a.len() + i] by {}
    assert(ascending(a));
    assert(ascending(b));
    let l = store.reopen();
    lemma_new_rows(l, a);
    lemma_new_rows(l, all);
    lemma_offer_concat(l, a, b);
    lemma_rows_stay_on_course(l, a);
    let m = l.push_all(a);
    let w = m.flush().written;
    let once = store.after(a);
    let n = once.reopen();
    if m.buf.len() == 0 {
        assert(a.len() == 0);
        assert(all =~= b);
        assert(once == store);
    } else {
        lemma_reopened(store, w);
        assert(w.last().rows == m.buf);
        assert(n.buf == m.buf);
        assert(m.key == Some(row_month(m.buf[0])));
        assert(n.key == m.key);
        assert forall|i: int| 0 <= i < b.len() implies placeable(
            (#[trigger] b[i]).ts_micros as int,
        ) && !n.covers(b[i].ts_micros as int) by {
            assert(b[i] == all[a.len() + i]);
            if a.len() > 0 {
                assert(b[0].ts_micros <= b[i].ts_micros);
            }
        }
        lemma_new_rows(n, b);
        assert(same_months(m.written, m.written + n.written)) by {
            assert(m.written + n.written =~= m.written);
        }
        assert(goes_on_from(m, m.written, n));
        lemma_pushes_go_on(m, m.written, n, b);
        lemma_flush_goes_on(m.push_all(b), m.written, n.push_all(b));
        let x = n.push_all(b).flush().written;
        let y = m.push_all(b).flush().written;
        lemma_first_month(n, b);
        lemma_put_same_months(store, store, y, m.written + x);
        lemma_put_concat(store, m.written, x);
        let s = store.put_all(m.written);
        let f = w.last();
        assert(w.drop_last() =~= m.written);
        assert(once == s.put(f));
        lemma_put_over(s, f, x);
    }
}

/// What a run hands out first begins with what it had gathered.
proof fn lemma_first_month(l: LedgerModel, rows: Seq<TradeRow>)
    requires
        l.buf.len() > 0,
        l.written.len() == 0,
    ensures
        ({
            let m = l.push_all(rows);
            &&& m.buf.len() > 0
            &&& m.written.len() > 0 ==> m.written[0].rows.len() > 0 && m.written[0].rows[0]
                == l.buf[0]
            &&& m.written.len() == 0 ==> m.buf[0] == l.buf[0]
            &&& m.flush().written.len() > 0
            &&& m.flush().written[0].rows[0] == l.buf[0]
        }),
    decreases rows.len(),
{
    if rows.len() > 0 {
        lemma_first_month(l, rows.drop_last());
    }
}

/// A shard that is replaced by the next month handed out leaves no trace.
proof fn lemma_put_over(s: StoreModel, f: FlushModel, x: Seq<FlushModel>)
    requires
        x.len() > 0,
        flush_month(x[0]) == flush_month(f),
    ensures
        s.put(f).put_all(x).same_rows(s.put_all(x)),
    decreases x.len(),
{
    let head = x.drop_last();
    if x.len() > 1 {
        assert(head[0] == x[0]);
        lemma_put_over(s, f, head);
    } else {
        assert(head =~= Seq::<FlushModel>::empty());
        assert(s.put(f).put_all(head) == s.put(f));
        assert(s.put_all(head) == s);
        let g = x.last();
        assert(s.put(f).put(g).shards =~= s.put(g).shards);
    }
}

/// What is handed out replaces the shard of its month and the saved cursor, and
/// leaves every other shard as it was.
pub proof fn law_a_month_replaces_its_own_shard(store: StoreModel, f: FlushModel, key: (i32, u32))
    requires
        f.rows.len() > 0,
    ensures
        ({
            let after = store.put(f);
            let own = month_of(dated(f.rows[0].ts_micros as int));
            &&& after.shards.contains_key(own) && after.shards[own] == f.rows
            &&& key != own ==> (after.shards.contains_key(key) <==> store.shards.contains_key(key))
            &&& key != own && store.shards.contains_key(key) ==> after.shards[key]
                == store.shards[key]
            &&& after.last_ts == Some(f.last_ts)
            &&& after.rows_written == f.rows_written
        }),
{
}

} // verus!
