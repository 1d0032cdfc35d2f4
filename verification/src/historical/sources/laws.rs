//! What a run over an exchange's history keeps to, however its pages fall.

use vstd::prelude::*;

use crate::calendar::{earlier_month, law_months_follow_time, lemma_placed, month_of, placeable};
use crate::historical::schema::{ascending, TradeRow};
use crate::historical::sources::ledger::{lemma_push_afresh, FlushModel, LedgerModel};
use crate::historical::store::row_month;

verus! {

// ── Rows ────────────────────────────────────────────────────────────────────

/// All rows of what was handed out, in order.
pub open spec fn rows_of(written: Seq<FlushModel>) -> Seq<TradeRow>
    decreases written.len(),
{
    if written.len() == 0 {
        Seq::empty()
    } else {
        rows_of(written.drop_last()) + written.last().rows
    }
}

/// All rows that a run holds: those handed out and those still gathered.
pub open spec fn rows_held(l: LedgerModel) -> Seq<TradeRow> {
    rows_of(l.written) + l.buf
}

proof fn lemma_flush_keeps_rows(l: LedgerModel)
    ensures
        rows_held(l.flush()) == rows_held(l),
{
    if l.buf.len() > 0 {
        let after = l.flush();
        assert(after.written.drop_last() =~= l.written);
        assert(rows_held(after) =~= rows_held(l));
    }
}

proof fn lemma_push_keeps_rows(l: LedgerModel, row: TradeRow)
    ensures
        rows_held(l.push(row)) == rows_held(l).push(row),
{
    lemma_flush_keeps_rows(l);
    assert(rows_held(l.push(row)) =~= rows_held(l).push(row));
}

/// Gathering loses no row and adds none: the rows held are those held before,
/// followed by the new ones in their order. Handing rows out changes nothing of
/// that.
pub proof fn law_no_row_is_lost(l: LedgerModel, rows: Seq<TradeRow>)
    ensures
        rows_held(l.push_all(rows)) == rows_held(l) + rows,
        rows_held(l.push_all(rows).flush()) == rows_held(l) + rows,
    decreases rows.len(),
{
    if rows.len() == 0 {
        assert(rows_held(l) + rows =~= rows_held(l));
    } else {
        law_no_row_is_lost(l, rows.drop_last());
        lemma_push_keeps_rows(l.push_all(rows.drop_last()), rows.last());
        assert(rows_held(l) + rows =~= (rows_held(l) + rows.drop_last()).push(rows.last()));
    }
    lemma_flush_keeps_rows(l.push_all(rows));
}

/// Rows are counted when they are handed out, and each once.
pub proof fn law_every_row_is_counted_once(l: LedgerModel, rows: Seq<TradeRow>)
    ensures
        ({
            let after = l.push_all(rows).flush();
            let n = l.buf.len() + rows.len();
            after.total == l.total + n && after.rows_written == l.rows_written + n
        }),
    decreases rows.len(),
{
    if rows.len() > 0 {
        law_every_row_is_counted_once(l, rows.drop_last());
    }
}

/// Rows that the cursor has passed change nothing.
pub proof fn law_covered_rows_change_nothing(l: LedgerModel, rows: Seq<TradeRow>)
    requires
        forall|i: int| 0 <= i < rows.len() ==> l.covers((#[trigger] rows[i]).ts_micros as int),
    ensures
        l.offer_all(rows) == l,
    decreases rows.len(),
{
    if rows.len() > 0 {
        law_covered_rows_change_nothing(l, rows.drop_last());
        assert(rows.last() == rows[rows.len() - 1]);
    }
}

proof fn lemma_offers_afresh(l: LedgerModel, rows: Seq<TradeRow>)
    ensures
        l.offer_all(rows).afresh() == l.afresh().offer_all(rows).afresh(),
        l.offer_all(rows).written == l.written + l.afresh().offer_all(rows).written,
    decreases rows.len(),
{
    if rows.len() == 0 {
        assert(l.written + Seq::<FlushModel>::empty() =~= l.written);
    } else {
        let head = rows.drop_last();
        let row = rows.last();
        lemma_offers_afresh(l, head);
        let (m, n) = (l.offer_all(head), l.afresh().offer_all(head));
        lemma_push_afresh(m, row);
        lemma_push_afresh(n, row);
        assert(m.covers(row.ts_micros as int) == m.afresh().covers(row.ts_micros as int));
        assert(n.covers(row.ts_micros as int) == n.afresh().covers(row.ts_micros as int));
        if !m.covers(row.ts_micros as int) {
            assert(m.push(row).written =~= l.written + n.push(row).written);
        }
    }
}

/// What a run has handed out before plays no part in a page, and what the page
/// hands out comes behind it.
pub proof fn law_pages_are_handed_out_in_turn(l: LedgerModel, rows: Seq<TradeRow>)
    ensures
        ({
            let whole = l.offer_all(rows);
            let piece = l.afresh().offer_all(rows);
            &&& whole.afresh() == piece.afresh()
            &&& whole.written == l.written + piece.written
            &&& whole.settle().afresh() == piece.settle().afresh()
            &&& whole.settle().written == l.written + piece.settle().written
        }),
{
    lemma_offers_afresh(l, rows);
    let (m, n) = (l.offer_all(rows), l.afresh().offer_all(rows));
    assert(m.settle().afresh() == m.afresh().settle().afresh());
    assert(n.settle().afresh() == n.afresh().settle().afresh());
}

/// Where there is room for a page and some rows more, there is room for those
/// rows behind the page.
pub proof fn law_a_page_takes_no_more_room_than_its_rows(
    l: LedgerModel,
    rows: Seq<TradeRow>,
    more: int,
)
    requires
        l.has_room(rows.len() + more),
    ensures
        l.offer_all(rows).has_room(more),
        l.offer_all(rows).settle().has_room(more),
    decreases rows.len(),
{
    if rows.len() > 0 {
        law_a_page_takes_no_more_room_than_its_rows(l, rows.drop_last(), more + 1);
    }
}

// ── Pages ───────────────────────────────────────────────────────────────────

/// A run over the pages of an exchange's answers: the rows of each page are
/// offered.
pub open spec fn run(l: LedgerModel, pages: Seq<Seq<TradeRow>>) -> LedgerModel
    decreases pages.len(),
{
    if pages.len() == 0 {
        l
    } else {
        run(l, pages.drop_last()).offer_all(pages.last())
    }
}

/// A run that moves the cursor on behind each page.
pub open spec fn settled_run(l: LedgerModel, pages: Seq<Seq<TradeRow>>) -> LedgerModel
    decreases pages.len(),
{
    if pages.len() == 0 {
        l
    } else {
        settled_run(l, pages.drop_last()).offer_all(pages.last()).settle()
    }
}

/// The rows of all pages, in order.
pub open spec fn page_rows(pages: Seq<Seq<TradeRow>>) -> Seq<TradeRow>
    decreases pages.len(),
{
    if pages.len() == 0 {
        Seq::empty()
    } else {
        page_rows(pages.drop_last()) + pages.last()
    }
}

/// Whether all rows can be placed in a month.
pub open spec fn all_placed(rows: Seq<TradeRow>) -> bool {
    forall|i: int| 0 <= i < rows.len() ==> placeable((#[trigger] rows[i]).ts_micros as int)
}

/// Whether a run starts where an earlier one ended: what it has gathered is of
/// one month and ends at the cursor, and nothing is handed out yet.
pub open spec fn takes_up(l: LedgerModel) -> bool {
    l.written.len() == 0 && ends_at_cursor(l)
}

/// Whether what is gathered is of one month and ends at the cursor.
pub open spec fn ends_at_cursor(l: LedgerModel) -> bool {
    &&& l.in_one_month()
    &&& l.buf.len() == 0 ==> l.key is None
    &&& l.buf.len() > 0 ==> {
        &&& l.last_ts == Some(l.buf.last().ts_micros)
        &&& placeable(l.buf.last().ts_micros as int)
    }
}

/// The month of what was handed out.
pub open spec fn flush_month(f: FlushModel) -> (i32, u32) {
    row_month(f.rows[0])
}

/// Whether what was handed out is one month's rows, with the cursor at the last
/// of them.
pub open spec fn is_whole(f: FlushModel) -> bool {
    &&& f.rows.len() > 0
    &&& f.last_ts == f.rows.last().ts_micros
    &&& forall|i: int| 0 <= i < f.rows.len() ==> row_month(#[trigger] f.rows[i]) == flush_month(f)
}

/// Whether months were handed out whole, in order, and each once.
pub open spec fn months_in_order(written: Seq<FlushModel>) -> bool {
    &&& forall|i: int| 0 <= i < written.len() ==> is_whole(#[trigger] written[i])
    &&& forall|i: int, j: int|
        0 <= i < j < written.len() ==> earlier_month(
            flush_month(#[trigger] written[i]),
            flush_month(#[trigger] written[j]),
        )
}

/// How far the rows of a run reach.
spec fn reach(l: LedgerModel) -> Option<i64> {
    if l.buf.len() > 0 {
        Some(l.buf.last().ts_micros)
    } else {
        l.last_ts
    }
}

/// What holds all through a run over ascending rows, `seen` being the timestamp
/// of the row offered last.
spec fn on_course(l: LedgerModel, seen: Option<i64>) -> bool {
    &&& l.in_one_month()
    &&& l.buf.len() == 0 ==> l.key is None && l.written.len() == 0
    &&& l.buf.len() > 0 ==> placeable(l.buf.last().ts_micros as int)
    &&& l.buf.len() > 0 ==> {
        let last = l.buf.last().ts_micros;
        ||| l.last_ts == Some(last)
        ||| seen is Some && last <= seen->0 && (l.last_ts is Some ==> l.last_ts->0 <= last)
    }
    &&& seen is Some ==> reach(l) is Some && seen->0 <= reach(l)->0
    &&& months_in_order(l.written)
    &&& forall|i: int|
        0 <= i < l.written.len() ==> l.key is Some && earlier_month(
            flush_month(#[trigger] l.written[i]),
            l.key->0,
        )
}

/// Rows never lie in an earlier month than rows before them in time.
proof fn lemma_row_months(a: TradeRow, b: TradeRow)
    requires
        placeable(a.ts_micros as int),
        placeable(b.ts_micros as int),
        a.ts_micros <= b.ts_micros,
    ensures
        row_month(a) == row_month(b) || earlier_month(row_month(a), row_month(b)),
{
    let (t1, t2) = (a.ts_micros as int, b.ts_micros as int);
    lemma_placed(t1);
    lemma_placed(t2);
    law_months_follow_time(t1, t2, row_month(a), row_month(b));
}

proof fn lemma_offer_stays_on_course(l: LedgerModel, seen: Option<i64>, row: TradeRow)
    requires
        on_course(l, seen),
        seen is Some ==> seen->0 <= row.ts_micros,
        placeable(row.ts_micros as int),
    ensures
        on_course(l.offer(row), Some(row.ts_micros)),
{
    let after = l.offer(row);
    if !l.covers(row.ts_micros as int) {
        assert(after.buf.last() == row);
        if l.buf.len() > 0 {
            assert(l.key == Some(row_month(l.buf.last())));
            assert(l.buf.last().ts_micros <= row.ts_micros);
            lemma_row_months(l.buf.last(), row);
            if l.key != Some(row_month(row)) {
                let f = l.flush().written.last();
                assert(row_month(f.rows[0]) == l.key->0);
                assert(is_whole(f));
                assert(after.written =~= l.written.push(f));
            }
        }
    }
}

proof fn lemma_page_stays_on_course(l: LedgerModel, seen: Option<i64>, rows: Seq<TradeRow>)
    requires
        on_course(l, seen),
        ascending(rows),
        forall|i: int| 0 <= i < rows.len() ==> placeable((#[trigger] rows[i]).ts_micros as int),
        seen is Some && rows.len() > 0 ==> seen->0 <= rows[0].ts_micros,
    ensures
        on_course(
            l.offer_all(rows),
            if rows.len() > 0 {
                Some(rows.last().ts_micros)
            } else {
                seen
            },
        ),
    decreases rows.len(),
{
    if rows.len() > 0 {
        let head = rows.drop_last();
        assert(ascending(head));
        lemma_page_stays_on_course(l, seen, head);
        let before = if head.len() > 0 {
            Some(head.last().ts_micros)
        } else {
            seen
        };
        assert(placeable(rows[rows.len() - 1].ts_micros as int));
        lemma_offer_stays_on_course(l.offer_all(head), before, rows.last());
    }
}

proof fn lemma_run_stays_on_course(l: LedgerModel, pages: Seq<Seq<TradeRow>>)
    requires
        takes_up(l),
        ascending(page_rows(pages)),
        all_placed(page_rows(pages)),
    ensures
        ({
            let seen = if page_rows(pages).len() > 0 {
                Some(page_rows(pages).last().ts_micros)
            } else {
                None
            };
            on_course(run(l, pages), seen) && on_course(settled_run(l, pages), seen)
        }),
    decreases pages.len(),
{
    if pages.len() > 0 {
        let head = page_rows(pages.drop_last());
        let page = pages.last();
        let all = page_rows(pages);
        assert forall|i: int| 0 <= i < head.len() implies #[trigger] head[i] == all[i] by {}
        assert forall|i: int| 0 <= i < page.len() implies #[trigger] page[i] == all[head.len() + i] by {}
        assert(ascending(head));
        assert(ascending(page));
        lemma_run_stays_on_course(l, pages.drop_last());
        let seen = if head.len() > 0 {
            Some(head.last().ts_micros)
        } else {
            None
        };
        if head.len() > 0 && page.len() > 0 {
            assert(head[head.len() - 1] == all[head.len() - 1]);
            assert(page[0] == all[head.len() as int]);
        }
        lemma_page_stays_on_course(run(l, pages.drop_last()), seen, page);
        lemma_page_stays_on_course(settled_run(l, pages.drop_last()), seen, page);
        if page.len() == 0 {
            assert(all =~= head);
        }
    }
}

/// A run that takes up where an earlier one ended, over rows that come in the
/// order of time, hands each month out once, whole and in order, with the cursor
/// at its last row.
pub proof fn law_each_month_is_written_once(l: LedgerModel, pages: Seq<Seq<TradeRow>>)
    requires
        takes_up(l),
        ascending(page_rows(pages)),
        all_placed(page_rows(pages)),
    ensures
        months_in_order(run(l, pages).flush().written),
        months_in_order(settled_run(l, pages).flush().written),
{
    lemma_run_stays_on_course(l, pages);
    let seen = if page_rows(pages).len() > 0 {
        Some(page_rows(pages).last().ts_micros)
    } else {
        None
    };
    lemma_flush_keeps_months_in_order(run(l, pages), seen);
    lemma_flush_keeps_months_in_order(settled_run(l, pages), seen);
}

/// The same where the rows are offered in one go.
pub proof fn law_each_offered_month_is_written_once(l: LedgerModel, rows: Seq<TradeRow>)
    requires
        takes_up(l),
        ascending(rows),
        all_placed(rows),
    ensures
        months_in_order(l.offer_all(rows).flush().written),
{
    lemma_page_stays_on_course(l, None, rows);
    let seen = if rows.len() > 0 {
        Some(rows.last().ts_micros)
    } else {
        None
    };
    lemma_flush_keeps_months_in_order(l.offer_all(rows), seen);
}

proof fn lemma_flush_keeps_months_in_order(m: LedgerModel, seen: Option<i64>)
    requires
        on_course(m, seen),
    ensures
        months_in_order(m.flush().written),
{
    if m.buf.len() > 0 {
        let f = m.flush().written.last();
        assert(m.key == Some(row_month(m.buf[0])));
        assert(is_whole(f));
        assert(m.flush().written =~= m.written.push(f));
    }
}

/// Fetching the same rows again duplicates none: a run that starts at the
/// cursor that the first one ended at gathers nothing from them, and is left as
/// it started.
pub proof fn law_fetching_again_adds_nothing(
    l: LedgerModel,
    pages: Seq<Seq<TradeRow>>,
    again: LedgerModel,
)
    requires
        takes_up(l),
        ascending(page_rows(pages)),
        all_placed(page_rows(pages)),
        again.last_ts == run(l, pages).flush().last_ts || again.last_ts == settled_run(
            l,
            pages,
        ).flush().last_ts,
        again.buf.len() > 0 ==> again.last_ts == Some(again.buf.last().ts_micros),
    ensures
        run(again, pages) == again,
        settled_run(again, pages) == again,
{
    lemma_run_stays_on_course(l, pages);
    let all = page_rows(pages);
    assert forall|i: int| 0 <= i < all.len() implies again.covers(
        (#[trigger] all[i]).ts_micros as int,
    ) by {
        assert(all[i].ts_micros <= all[all.len() - 1].ts_micros);
    }
    lemma_covered_pages(again, pages);
}

/// A run can be taken up where it ended: from the cursor and the rows that were
/// handed out last, the next run starts in good order.
pub proof fn law_a_run_can_be_taken_up(f: FlushModel)
    requires
        is_whole(f),
        placeable(f.last_ts as int),
    ensures
        takes_up(
            LedgerModel {
                key: Some(month_of(f.last_ts as int)),
                buf: f.rows,
                last_ts: Some(f.last_ts),
                rows_written: f.rows_written,
                total: 0,
                written: Seq::empty(),
            },
        ),
{
    assert(row_month(f.rows[f.rows.len() - 1]) == flush_month(f));
}

/// Pages that the cursor has passed change nothing.
pub proof fn lemma_covered_pages(l: LedgerModel, pages: Seq<Seq<TradeRow>>)
    requires
        l.buf.len() > 0 ==> l.last_ts == Some(l.buf.last().ts_micros),
        forall|i: int|
            0 <= i < page_rows(pages).len() ==> l.covers(
                (#[trigger] page_rows(pages)[i]).ts_micros as int,
            ),
    ensures
        run(l, pages) == l,
        settled_run(l, pages) == l,
    decreases pages.len(),
{
    if pages.len() > 0 {
        let head = page_rows(pages.drop_last());
        let page = pages.last();
        let all = page_rows(pages);
        assert forall|i: int| 0 <= i < head.len() implies l.covers(
            (#[trigger] head[i]).ts_micros as int,
        ) by {
            assert(head[i] == all[i]);
        }
        assert forall|i: int| 0 <= i < page.len() implies l.covers(
            (#[trigger] page[i]).ts_micros as int,
        ) by {
            assert(page[i] == all[head.len() + i]);
        }
        lemma_covered_pages(l, pages.drop_last());
        law_covered_rows_change_nothing(l, page);
    }
}

/// However the pages fall, no row behind the cursor is left out: over rows in
/// the order of time, a run holds what it started with and then every one of
/// them. Rows of one instant are kept also where a page ends between them.
pub proof fn law_every_new_row_is_kept(l: LedgerModel, pages: Seq<Seq<TradeRow>>)
    requires
        takes_up(l),
        ascending(page_rows(pages)),
        all_new(l, page_rows(pages)),
    ensures
        run(l, pages) == l.push_all(page_rows(pages)),
        rows_held(run(l, pages)) == rows_held(l) + page_rows(pages),
{
    lemma_run_is_one_offer(l, pages);
    lemma_new_rows(l, page_rows(pages));
    law_no_row_is_lost(l, page_rows(pages));
}

/// A run that moves the cursor on behind each page leaves out no row either,
/// where each lies behind the one before it.
pub proof fn law_every_later_row_is_kept(l: LedgerModel, pages: Seq<Seq<TradeRow>>)
    requires
        takes_up(l),
        strictly_ascending(page_rows(pages)),
        all_new(l, page_rows(pages)),
    ensures
        settled_run(l, pages) == l.push_all(page_rows(pages)).settle(),
        rows_held(settled_run(l, pages)) == rows_held(l) + page_rows(pages),
    decreases pages.len(),
{
    if pages.len() > 0 {
        let head = page_rows(pages.drop_last());
        let all = page_rows(pages);
        assert forall|i: int| 0 <= i < head.len() implies #[trigger] head[i] == all[i] by {}
        law_every_later_row_is_kept(l, pages.drop_last());
        if head.len() > 0 && pages.last().len() > 0 {
            assert(head.last() == all[head.len() - 1]);
            assert(pages.last()[0] == all[head.len() as int]);
        }
        lemma_settled_step(l, head, pages.last());
    }
    law_no_row_is_lost(l, page_rows(pages));
}

/// Whether all rows can be placed and lie behind the cursor.
pub open spec fn all_new(l: LedgerModel, rows: Seq<TradeRow>) -> bool {
    forall|i: int|
        0 <= i < rows.len() ==> placeable((#[trigger] rows[i]).ts_micros as int) && !l.covers(
            rows[i].ts_micros as int,
        )
}

/// Whether each row lies behind the one before it.
pub open spec fn strictly_ascending(rows: Seq<TradeRow>) -> bool {
    forall|i: int, j: int|
        0 <= i < j < rows.len() ==> (#[trigger] rows[i]).ts_micros < (#[trigger] rows[j]).ts_micros
}

/// Whether a run has led from one state to another over rows in the order of
/// time: what is handed out last is whole and can be placed, and the run has come
/// at least as far as the rows.
pub open spec fn led_on(l: LedgerModel, m: LedgerModel, rows: Seq<TradeRow>) -> bool {
    let w = m.flush().written;
    &&& m.in_one_month()
    &&& m.buf.len() == 0 ==> m == l
    &&& w.len() > 0 ==> {
        &&& m.buf.len() > 0
        &&& w.last().rows == m.buf
        &&& is_whole(w.last())
        &&& placeable(w.last().last_ts as int)
        &&& rows.len() > 0 ==> rows.last().ts_micros <= w.last().last_ts
    }
    &&& w.len() == 0 && rows.len() > 0 ==> l.covers(rows.last().ts_micros as int)
}

/// A run that has gathered nothing has not moved.
proof fn lemma_nothing_gathered(l: LedgerModel, rows: Seq<TradeRow>)
    requires
        l.offer_all(rows).buf.len() == 0,
    ensures
        l.offer_all(rows) == l,
    decreases rows.len(),
{
    if rows.len() > 0 {
        lemma_nothing_gathered(l, rows.drop_last());
    }
}

/// Rows in the order of time lead a run on.
pub proof fn lemma_rows_stay_on_course(l: LedgerModel, rows: Seq<TradeRow>)
    requires
        takes_up(l),
        ascending(rows),
        all_placed(rows),
    ensures
        led_on(l, l.offer_all(rows), rows),
{
    let m = l.offer_all(rows);
    lemma_page_stays_on_course(l, None, rows);
    if m.buf.len() > 0 {
        assert(m.key == Some(row_month(m.buf[0])));
    } else {
        lemma_nothing_gathered(l, rows);
    }
}

/// Pages in the order of time lead a run on that moves its cursor behind each.
pub proof fn lemma_pages_stay_on_course(l: LedgerModel, pages: Seq<Seq<TradeRow>>)
    requires
        takes_up(l),
        ascending(page_rows(pages)),
        all_placed(page_rows(pages)),
    ensures
        led_on(l, settled_run(l, pages), page_rows(pages)),
{
    let m = settled_run(l, pages);
    lemma_run_stays_on_course(l, pages);
    if m.buf.len() > 0 {
        assert(m.key == Some(row_month(m.buf[0])));
    } else {
        lemma_no_page_gathered(l, pages);
    }
}

proof fn lemma_no_page_gathered(l: LedgerModel, pages: Seq<Seq<TradeRow>>)
    requires
        settled_run(l, pages).buf.len() == 0,
    ensures
        settled_run(l, pages) == l,
    decreases pages.len(),
{
    if pages.len() > 0 {
        let before = settled_run(l, pages.drop_last());
        lemma_nothing_gathered(before, pages.last());
        lemma_no_page_gathered(l, pages.drop_last());
    }
}

/// Rows offered in two goes are offered in one.
pub proof fn lemma_offer_concat(l: LedgerModel, a: Seq<TradeRow>, b: Seq<TradeRow>)
    ensures
        l.offer_all(a + b) == l.offer_all(a).offer_all(b),
        l.push_all(a + b) == l.push_all(a).push_all(b),
    decreases b.len(),
{
    if b.len() == 0 {
        assert(a + b =~= a);
    } else {
        lemma_offer_concat(l, a, b.drop_last());
        assert((a + b).drop_last() =~= a + b.drop_last());
        assert((a + b).last() == b.last());
    }
}

/// A run offers the rows of its pages in one go.
pub proof fn lemma_run_is_one_offer(l: LedgerModel, pages: Seq<Seq<TradeRow>>)
    ensures
        run(l, pages) == l.offer_all(page_rows(pages)),
    decreases pages.len(),
{
    if pages.len() > 0 {
        lemma_run_is_one_offer(l, pages.drop_last());
        lemma_offer_concat(l, page_rows(pages.drop_last()), pages.last());
    }
}

/// Rows behind the cursor, in the order of time, are all gathered, and the last
/// of them ends what is gathered.
pub proof fn lemma_new_rows(l: LedgerModel, rows: Seq<TradeRow>)
    requires
        ends_at_cursor(l),
        ascending(rows),
        all_new(l, rows),
    ensures
        l.offer_all(rows) == l.push_all(rows),
        l.push_all(rows).in_one_month(),
        rows.len() > 0 ==> {
            let m = l.push_all(rows);
            &&& m.buf.len() > 0
            &&& m.buf.last() == rows.last()
            &&& m.key == Some(row_month(rows.last()))
            &&& m.last_ts == l.last_ts || (m.last_ts is Some && m.last_ts->0
                < rows.last().ts_micros)
        },
    decreases rows.len(),
{
    if rows.len() > 0 {
        let head = rows.drop_last();
        let row = rows.last();
        assert(row == rows[rows.len() - 1]);
        assert forall|i: int| 0 <= i < head.len() implies #[trigger] head[i] == rows[i] by {}
        assert(ascending(head));
        lemma_new_rows(l, head);
        if head.len() > 0 {
            let before = head.last();
            assert(before == rows[rows.len() - 2]);
            if row_month(before) != row_month(row) {
                assert(before.ts_micros != row.ts_micros);
            }
        }
    }
}

/// Whether two states differ in where the cursor stands at most.
spec fn same_but_cursor(a: LedgerModel, b: LedgerModel) -> bool {
    a == LedgerModel { last_ts: a.last_ts, ..b }
}

proof fn lemma_push_without_cursor(a: LedgerModel, b: LedgerModel, rows: Seq<TradeRow>)
    requires
        same_but_cursor(a, b),
    ensures
        same_but_cursor(a.push_all(rows), b.push_all(rows)),
    decreases rows.len(),
{
    if rows.len() > 0 {
        lemma_push_without_cursor(a, b, rows.drop_last());
    }
}

/// Settling between two stretches of rows in the order of time changes nothing of
/// where they lead, where the second lies behind the first.
pub proof fn lemma_settled_step(l: LedgerModel, a: Seq<TradeRow>, b: Seq<TradeRow>)
    requires
        ends_at_cursor(l),
        ascending(a + b),
        a.len() > 0 && b.len() > 0 ==> a.last().ts_micros < b[0].ts_micros,
        all_new(l, a + b),
    ensures
        l.push_all(a).settle().offer_all(b).settle() == l.push_all(a + b).settle(),
{
    let all = a + b;
    assert forall|i: int| 0 <= i < a.len() implies #[trigger] a[i] == all[i] by {}
    assert forall|i: int| 0 <= i < b.len() implies #[trigger] b[i] == all[a.len() + i] by {}
    assert(ascending(a));
    assert(ascending(b));
    lemma_new_rows(l, a);
    lemma_new_rows(l, all);
    let m = l.push_all(a);
    let n = m.settle();
    assert(ends_at_cursor(n)) by {
        if a.len() > 0 {
            assert(a.last() == a[a.len() - 1]);
        }
    }
    assert forall|i: int| 0 <= i < b.len() implies placeable((#[trigger] b[i]).ts_micros as int)
        && !n.covers(b[i].ts_micros as int) by {
        assert(b[i] == all[a.len() + i]);
        if a.len() > 0 {
            assert(b[0].ts_micros <= b[i].ts_micros);
        }
    }
    lemma_new_rows(n, b);
    lemma_offer_concat(l, a, b);
    lemma_push_without_cursor(n, m, b);
    if b.len() > 0 {
        assert(b.last() == b[b.len() - 1]);
        assert(all.last() == b.last());
    } else {
        assert(all =~= a);
    }
}

} // verus!
