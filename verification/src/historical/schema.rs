//! The rows that every source is brought to before anything is stored.

use vstd::prelude::*;

use crate::binary64::Binary64;

verus! {

/// One normalised trade.
#[derive(Clone, Copy, Debug)]
pub struct TradeRow {
    /// Microseconds since the UNIX epoch.
    pub ts_micros: i64,
    /// Executed price in USD.
    pub price: Binary64,
    /// Executed quantity in BTC.
    pub quantity: Binary64,
    /// Taker side, `"buy"` or `"sell"`; nothing where the source has none.
    pub side: Option<&'static str>,
    /// Name of the source exchange, in lower-case ASCII.
    pub exchange: &'static str,
}

/// A trade row that owns its texts.
#[derive(Clone, Debug)]
pub struct OwnedRow {
    pub ts_micros: i64,
    pub price: Binary64,
    pub quantity: Binary64,
    pub side: Option<String>,
    pub exchange: String,
}

/// What a row holds, whoever owns its texts.
pub struct RowModel {
    pub ts_micros: i64,
    pub price: Binary64,
    pub quantity: Binary64,
    pub side: Option<Seq<char>>,
    pub exchange: Seq<char>,
}

impl View for TradeRow {
    type V = RowModel;

    open spec fn view(&self) -> RowModel {
        RowModel {
            ts_micros: self.ts_micros,
            price: self.price,
            quantity: self.quantity,
            side: match self.side {
                Some(s) => Some(s@),
                None => None,
            },
            exchange: self.exchange@,
        }
    }
}

impl View for OwnedRow {
    type V = RowModel;

    open spec fn view(&self) -> RowModel {
        RowModel {
            ts_micros: self.ts_micros,
            price: self.price,
            quantity: self.quantity,
            side: match self.side {
                Some(s) => Some(s@),
                None => None,
            },
            exchange: self.exchange@,
        }
    }
}

/// Whether rows stand in ascending order of time.
pub open spec fn ascending(rows: Seq<TradeRow>) -> bool {
    forall|i: int, j: int|
        0 <= i <= j < rows.len() ==> (#[trigger] rows[i]).ts_micros <= (#[trigger] rows[j]).ts_micros
}

/// Whether owned rows stand in ascending order of time.
pub open spec fn owned_ascending(rows: Seq<OwnedRow>) -> bool {
    forall|i: int, j: int|
        0 <= i <= j < rows.len() ==> (#[trigger] rows[i]).ts_micros <= (#[trigger] rows[j]).ts_micros
}

/// Whether rows are given rows in ascending order of time. Rows of one instant
/// may stand in any order.
pub open spec fn sorts(sorted: Seq<TradeRow>, rows: Seq<TradeRow>) -> bool {
    ascending(sorted) && sorted.to_multiset() == rows.to_multiset()
}

/// Sorts rows by time, through `slice::sort_unstable_by_key`: afterwards the
/// same rows stand in ascending order of time. In which order rows of one
/// instant stand is left open.
#[verifier::external_body]
pub(crate) fn sort_rows(rows: &mut Vec<TradeRow>)
    ensures
        sorts(final(rows)@, old(rows)@),
{
    rows.sort_unstable_by_key(|r| r.ts_micros);
}

/// Sorting moves rows and does nothing else: each row comes from a place of its
/// own among the rows as they were, no place is left out, and none of the rows
/// lies before the one ahead of it in time.
pub proof fn law_sorting_only_moves_rows(sorted: Seq<TradeRow>, rows: Seq<TradeRow>) -> (from: Seq<
    int,
>)
    requires
        sorts(sorted, rows),
    ensures
        sorted.len() == rows.len(),
        from.len() == sorted.len(),
        forall|i: int, j: int|
            0 <= i < j < sorted.len() ==> (#[trigger] sorted[i]).ts_micros <= (
            #[trigger] sorted[j]).ts_micros,
        forall|i: int|
            0 <= i < from.len() ==> 0 <= #[trigger] from[i] < rows.len() && sorted[i]
                == rows[from[i]],
        forall|i: int, j: int|
            0 <= i < j < from.len() ==> #[trigger] from[i] != #[trigger] from[j],
        forall|k: int| 0 <= k < rows.len() ==> #[trigger] from.contains(k),
{
    let from = lemma_places(sorted, rows);
    lemma_all_places(from, rows.len() as int);
    from
}

/// Where the rows of one order stand in another.
proof fn lemma_places(a: Seq<TradeRow>, b: Seq<TradeRow>) -> (from: Seq<int>)
    requires
        a.to_multiset() == b.to_multiset(),
    ensures
        a.len() == b.len(),
        from.len() == a.len(),
        forall|i: int|
            0 <= i < from.len() ==> 0 <= #[trigger] from[i] < b.len() && a[i] == b[from[i]],
        forall|i: int, j: int|
            0 <= i < j < from.len() ==> #[trigger] from[i] != #[trigger] from[j],
    decreases a.len(),
{
    broadcast use vstd::seq_lib::group_to_multiset_ensures;

    assert(a.len() == a.to_multiset().len());
    assert(b.len() == b.to_multiset().len());
    if a.len() == 0 {
        Seq::empty()
    } else {
        let row = a.last();
        assert(a.contains(row)) by {
            assert(a[a.len() - 1] == row);
        }
        assert(b.contains(row)) by {
            assert(b.to_multiset().count(row) > 0);
        }
        let at = choose|at: int| 0 <= at < b.len() && b[at] == row;
        let (x, y) = (a.drop_last(), b.remove(at));
        assert(a.remove(a.len() - 1) =~= x);
        assert(x.to_multiset() =~= a.to_multiset().remove(row));
        assert(y.to_multiset() =~= b.to_multiset().remove(row));
        let rest = lemma_places(x, y);
        let from = Seq::new(
            a.len(),
            |i: int|
                if i == a.len() - 1 {
                    at
                } else if rest[i] < at {
                    rest[i]
                } else {
                    rest[i] + 1
                },
        );
        assert forall|i: int| 0 <= i < from.len() implies 0 <= #[trigger] from[i] < b.len() && a[i]
            == b[from[i]] by {
            if i < a.len() - 1 {
                assert(x[i] == a[i]);
                assert(x[i] == y[rest[i]]);
            }
        }
        assert forall|i: int, j: int| 0 <= i < j < from.len() implies #[trigger] from[i]
            != #[trigger] from[j] by {
            if j < a.len() - 1 {
                assert(rest[i] != rest[j]);
            } else {
                assert(0 <= rest[i]);
            }
        }
        from
    }
}

/// As many different numbers as there are places name all of them.
proof fn lemma_all_places(from: Seq<int>, n: int)
    requires
        from.len() == n,
        forall|i: int| 0 <= i < from.len() ==> 0 <= #[trigger] from[i] < n,
        forall|i: int, j: int|
            0 <= i < j < from.len() ==> #[trigger] from[i] != #[trigger] from[j],
    ensures
        forall|k: int| 0 <= k < n ==> #[trigger] from.contains(k),
{
    let places = vstd::set_lib::set_int_range(0, n);
    vstd::set_lib::lemma_int_range(0, n);
    assert(from.no_duplicates());
    from.unique_seq_to_set();
    vstd::seq_lib::seq_to_set_is_finite(from);
    assert(from.to_set().subset_of(places));
    vstd::set_lib::lemma_subset_equality(from.to_set(), places);
    assert forall|k: int| 0 <= k < n implies #[trigger] from.contains(k) by {
        assert(places.contains(k));
        assert(from.to_set().contains(k));
    }
}

} // verus!
