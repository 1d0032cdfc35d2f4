//! The monthly shards that rows are kept in.
//!
//! A shard holds the rows of one exchange and one calendar month, ascending by
//! time, at `{data_root}/{exchange}/{YYYY}/{MM}.parquet`.

use vstd::prelude::*;

use crate::binary64::Binary64;
use crate::calendar::{
    dated, dated_month, earlier_month, in_month, keys_in_order, lemma_min_micros,
    lemma_month_in_its_place, lemma_month_of, lemma_placed, month_of, placeable,
};
use crate::historical::schema::{ascending, OwnedRow, RowModel, TradeRow};
use crate::text::{
    integer_text, join_path, joined, same_text, two_digit_text, write_i64, write_two_digits,
};

verus! {

// ── Shards and their paths ──────────────────────────────────────────────────

/// The shards of one exchange.
pub struct DataStore {
    data_root: String,
    exchange: &'static str,
}

/// The directory that holds an exchange's shards of one year.
pub open spec fn year_dir(root: Seq<char>, exchange: Seq<char>, year: int) -> Seq<char> {
    joined(joined(root, exchange), integer_text(year))
}

/// The name of a month's shard within its year's directory.
pub open spec fn shard_name(month: nat) -> Seq<char> {
    two_digit_text(month) + ".parquet"@
}

/// The path of a shard.
pub open spec fn shard_file(
    root: Seq<char>,
    exchange: Seq<char>,
    year: int,
    month: nat,
) -> Seq<char> {
    joined(year_dir(root, exchange, year), shard_name(month))
}

impl DataStore {
    /// The directory under which all exchanges keep their shards.
    pub closed spec fn root(self) -> Seq<char> {
        self.data_root@
    }

    /// The exchange whose shards these are.
    pub closed spec fn exchange_name(self) -> Seq<char> {
        self.exchange@
    }

    /// The shards of an exchange under a data root.
    pub fn new(data_root: &str, exchange: &'static str) -> (store: Self)
        ensures
            store.root() == data_root@,
            store.exchange_name() == exchange@,
    {
        DataStore { data_root: data_root.to_owned(), exchange }
    }

    /// The directory that holds this exchange's shards and cursor.
    pub fn exchange_dir(&self) -> (path: String)
        ensures
            path@ == joined(self.root(), self.exchange_name()),
    {
        join_path(self.data_root.as_str(), self.exchange)
    }

    /// The directory that holds this exchange's shards of one year.
    pub fn year_path(&self, year: i32) -> (path: String)
        ensures
            path@ == year_dir(self.root(), self.exchange_name(), year as int),
    {
        let base = self.exchange_dir();
        join_path(base.as_str(), write_i64(year as i64).as_str())
    }

    /// The path of a month's shard.
    pub fn shard_path(&self, year: i32, month: u32) -> (path: String)
        ensures
            path@ == shard_file(self.root(), self.exchange_name(), year as int, month as nat),
    {
        shard_path_of(self.data_root.as_str(), self.exchange, year, month)
    }
}

/// The path of the shard of any exchange.
pub fn shard_path_of(data_root: &str, exchange: &str, year: i32, month: u32) -> (path: String)
    ensures
        path@ == shard_file(data_root@, exchange@, year as int, month as nat),
{
    let base = join_path(data_root, exchange);
    let dir = join_path(base.as_str(), write_i64(year as i64).as_str());
    let mut name = write_two_digits(month);
    name.append(".parquet");
    join_path(dir.as_str(), name.as_str())
}

// ── Splitting rows by month ─────────────────────────────────────────────────

/// The month whose shard a row belongs to.
pub open spec fn row_month(row: TradeRow) -> (i32, u32) {
    month_of(dated(row.ts_micros as int))
}

/// The rows that belong to one month's shard, in the order they came.
pub open spec fn month_rows(rows: Seq<TradeRow>, key: (i32, u32)) -> Seq<TradeRow> {
    rows.filter(|row: TradeRow| row_month(row) == key)
}

proof fn lemma_month_rows_push(rows: Seq<TradeRow>, row: TradeRow, key: (i32, u32))
    ensures
        month_rows(rows.push(row), key) == if row_month(row) == key {
            month_rows(rows, key).push(row)
        } else {
            month_rows(rows, key)
        },
{
    reveal(Seq::filter);
    assert(rows.push(row).drop_last() =~= rows);
}

/// One shard to write: its month, its path and all its rows.
pub struct ShardWrite {
    pub year: i32,
    pub month: u32,
    pub path: String,
    pub rows: Vec<TradeRow>,
}

impl ShardWrite {
    /// The month of this shard.
    pub open spec fn key(self) -> (i32, u32) {
        (self.year, self.month)
    }
}

/// The rows of one month, while a batch is being split.
struct MonthGroup {
    key: (i32, u32),
    rows: Vec<TradeRow>,
}

/// The months of groups.
spec fn group_keys(groups: Seq<MonthGroup>) -> Seq<(i32, u32)> {
    groups.map_values(|g: MonthGroup| g.key)
}

/// Whether groups hold exactly the given rows, each in its month.
spec fn groups_hold(groups: Seq<MonthGroup>, rows: Seq<TradeRow>) -> bool {
    &&& forall|i: int|
        0 <= i < groups.len() ==> (#[trigger] groups[i]).rows@ == month_rows(rows, groups[i].key)
            && groups[i].rows@.len() > 0
    &&& forall|r: int|
        0 <= r < rows.len() ==> exists|i: int|
            0 <= i < groups.len() && (#[trigger] groups[i]).key == row_month(#[trigger] rows[r])
}

/// Compares two months.
fn comes_before(a: (i32, u32), b: (i32, u32)) -> (r: bool)
    ensures
        r == earlier_month(a, b),
{
    a.0 < b.0 || (a.0 == b.0 && a.1 < b.1)
}

/// Adds a row to the group of its month, making one where there is none.
fn add_to_group(
    groups: &mut Vec<MonthGroup>,
    row: TradeRow,
    key: (i32, u32),
    Ghost(rows): Ghost<Seq<TradeRow>>,
)
    requires
        key == row_month(row),
        keys_in_order(group_keys(old(groups)@)),
        groups_hold(old(groups)@, rows),
    ensures
        keys_in_order(group_keys(final(groups)@)),
        groups_hold(final(groups)@, rows.push(row)),
{
    let ghost before = groups@;
    let ghost all = rows.push(row);
    let mut i: usize = groups.len();
    while i > 0 && comes_before(key, groups[i - 1].key)
        invariant
            i <= groups@.len(),
            groups@ == before,
            forall|j: int| i <= j < groups@.len() ==> earlier_month(key, (#[trigger] groups@[j]).key),
        decreases i,
    {
        i = i - 1;
    }
    proof {
        assert forall|k: (i32, u32)| #[trigger] month_rows(all, k) == if k == key {
            month_rows(rows, k).push(row)
        } else {
            month_rows(rows, k)
        } by {
            lemma_month_rows_push(rows, row, k);
        }
    }
    if i > 0 && groups[i - 1].key.0 == key.0 && groups[i - 1].key.1 == key.1 {
        groups[i - 1].rows.push(row);
        proof {
            let at = i - 1;
            assert(groups@.len() == before.len());
            assert forall|g: int| 0 <= g < groups@.len() && g != at implies (#[trigger] groups@[g])
                == before[g] by {}
            assert(groups@[at].key == key);
            assert(group_keys(groups@) =~= group_keys(before));
            assert forall|g: int| 0 <= g < before.len() && g != at implies (
            #[trigger] before[g]).key != key by {
                let keys = group_keys(before);
                assert(keys[at] == key && keys[g] == before[g].key);
                assert(earlier_month(keys[g], keys[at]) || earlier_month(keys[at], keys[g]));
            }
            assert(groups@[at].rows@ == before[at].rows@.push(row));
            assert forall|r: int| 0 <= r < all.len() implies exists|g: int|
                0 <= g < groups@.len() && (#[trigger] groups@[g]).key == row_month(
                    #[trigger] all[r],
                ) by {
                if r < rows.len() {
                    assert(all[r] == rows[r]);
                    let g = choose|g: int|
                        0 <= g < before.len() && (#[trigger] before[g]).key == row_month(rows[r]);
                    assert(groups@[g].key == before[g].key);
                } else {
                    assert(groups@[at].key == row_month(all[r]));
                }
            }
        }
    } else {
        let mut fresh: Vec<TradeRow> = Vec::new();
        fresh.push(row);
        proof {
            lemma_month_in_its_place(group_keys(before), i as int, key);
            assert forall|g: int| 0 <= g < before.len() implies (#[trigger] before[g]).key
                != key by {
                assert(group_keys(before)[g] != key);
            }
            assert(month_rows(rows, key).len() == 0) by {
                if month_rows(rows, key).len() > 0 {
                    let found = month_rows(rows, key)[0];
                    rows.lemma_filter_contains_rev(
                        |row: TradeRow| row_month(row) == key,
                        found,
                    );
                }
            }
        }
        groups.insert(i, MonthGroup { key, rows: fresh });
        proof {
            assert(groups@ == before.insert(i as int, groups@[i as int]));
            assert(group_keys(groups@) =~= group_keys(before).insert(i as int, key));
            assert(groups@[i as int].rows@ =~= month_rows(rows, key).push(row));
            assert forall|g: int| 0 <= g < groups@.len() implies (#[trigger] groups@[g]).rows@
                == month_rows(all, groups@[g].key) && groups@[g].rows@.len() > 0 by {
                if g < i {
                    assert(groups@[g] == before[g]);
                    assert(before[g].key != key);
                } else if g > i {
                    assert(groups@[g] == before[g - 1]);
                    assert(before[g - 1].key != key);
                }
            }
            assert forall|r: int| 0 <= r < all.len() implies exists|g: int|
                0 <= g < groups@.len() && (#[trigger] groups@[g]).key == row_month(
                    #[trigger] all[r],
                ) by {
                if r < rows.len() {
                    assert(all[r] == rows[r]);
                    let g = choose|g: int|
                        0 <= g < before.len() && (#[trigger] before[g]).key == row_month(rows[r]);
                    if g < i {
                        assert(groups@[g] == before[g]);
                    } else {
                        assert(groups@[g + 1] == before[g]);
                    }
                } else {
                    assert(groups@[i as int].key == row_month(all[r]));
                }
            }
        }
    }
}

/// Whether one of the shards is that of the given month.
pub open spec fn has_month(writes: Seq<ShardWrite>, key: (i32, u32)) -> bool {
    exists|i: int| 0 <= i < writes.len() && (#[trigger] writes[i]).key() == key
}

/// Whether shards to write hold exactly the given rows: in the order of their
/// months, each month once and not without rows, every row in the shard of its
/// month in the order it came, and each shard at its own path.
pub open spec fn splits_by_month(
    writes: Seq<ShardWrite>,
    rows: Seq<TradeRow>,
    root: Seq<char>,
    exchange: Seq<char>,
) -> bool {
    &&& forall|i: int, j: int|
        0 <= i < j < writes.len() ==> earlier_month(
            (#[trigger] writes[i]).key(),
            (#[trigger] writes[j]).key(),
        )
    &&& forall|i: int|
        0 <= i < writes.len() ==> {
            let w = #[trigger] writes[i];
            &&& w.rows@ == month_rows(rows, w.key())
            &&& w.rows@.len() > 0
            &&& w.path@ == shard_file(root, exchange, w.year as int, w.month as nat)
        }
    &&& forall|r: int|
        0 <= r < rows.len() ==> has_month(writes, row_month(#[trigger] rows[r]))
}

impl DataStore {
    /// Splits a batch of rows into the shards of their calendar months. A shard
    /// that exists already is to be replaced as a whole.
    pub fn write_batch(&self, rows: &Vec<TradeRow>) -> (writes: Vec<ShardWrite>)
        ensures
            splits_by_month(writes@, rows@, self.root(), self.exchange_name()),
    {
        let mut groups: Vec<MonthGroup> = Vec::new();
        for i in 0..rows.len()
            invariant
                keys_in_order(group_keys(groups@)),
                groups_hold(groups@, rows@.take(i as int)),
        {
            let row = rows[i];
            let key = dated_month(row.ts_micros);
            add_to_group(&mut groups, row, key, Ghost(rows@.take(i as int)));
            assert(rows@.take(i + 1) =~= rows@.take(i as int).push(row));
        }
        assert(rows@.take(rows@.len() as int) =~= rows@);
        let ghost found = groups@;
        let mut writes: Vec<ShardWrite> = Vec::new();
        let mut rest = groups;
        while rest.len() > 0
            invariant
                keys_in_order(group_keys(found)),
                groups_hold(found, rows@),
                rest@.len() + writes@.len() == found.len(),
                rest@ == found.skip(writes@.len() as int),
                forall|i: int|
                    0 <= i < writes@.len() ==> {
                        let w = #[trigger] writes@[i];
                        &&& w.key() == found[i].key
                        &&& w.rows@ == found[i].rows@
                        &&& w.path@ == shard_file(
                            self.root(),
                            self.exchange_name(),
                            w.year as int,
                            w.month as nat,
                        )
                    },
            decreases rest@.len(),
        {
            let ghost at = writes@.len() as int;
            let group = rest.remove(0);
            assert(group == found[at]);
            let path = self.shard_path(group.key.0, group.key.1);
            writes.push(
                ShardWrite { year: group.key.0, month: group.key.1, path, rows: group.rows },
            );
            assert(rest@ =~= found.skip(at + 1));
        }
        proof {
            assert forall|r: int| 0 <= r < rows@.len() implies has_month(
                writes@,
                row_month(#[trigger] rows@[r]),
            ) by {
                let g = choose|g: int|
                    0 <= g < found.len() && (#[trigger] found[g]).key == row_month(rows@[r]);
                assert(writes@[g].key() == row_month(rows@[r]));
            }
            assert forall|i: int, j: int| 0 <= i < j < writes@.len() implies earlier_month(
                (#[trigger] writes@[i]).key(),
                (#[trigger] writes@[j]).key(),
            ) by {
                assert(earlier_month(group_keys(found)[i], group_keys(found)[j]));
            }
            assert forall|i: int| 0 <= i < writes@.len() implies (#[trigger] writes@[i]).rows@
                == month_rows(rows@, writes@[i].key()) && writes@[i].rows@.len() > 0 by {
                assert(found[i].rows@ == month_rows(rows@, found[i].key));
            }
        }
        writes
    }
}

/// Rows that come in ascending order stay so within their shards.
pub proof fn law_shards_stay_ascending(rows: Seq<TradeRow>, key: (i32, u32))
    requires
        ascending(rows),
    ensures
        ascending(month_rows(rows, key)),
    decreases rows.len(),
{
    reveal(Seq::filter);
    if rows.len() > 0 {
        let rest = rows.drop_last();
        let row = rows.last();
        assert(ascending(rest));
        law_shards_stay_ascending(rest, key);
        assert(rest.push(row) =~= rows);
        lemma_month_rows_push(rest, row, key);
        assert forall|i: int| 0 <= i < month_rows(rest, key).len() implies (#[trigger] month_rows(
            rest,
            key,
        )[i]).ts_micros <= row.ts_micros by {
            let found = month_rows(rest, key)[i];
            assert(month_rows(rest, key).contains(found));
            rest.lemma_filter_contains_rev(|row: TradeRow| row_month(row) == key, found);
            let at = choose|at: int| 0 <= at < rest.len() && rest[at] == found;
            assert(rows[at] == found);
            assert(rows[rows.len() - 1] == row);
        }
    }
}

// ── Shards as columns ───────────────────────────────────────────────────────

/// The most rows that one row group of a shard holds.
pub const MAX_ROW_GROUP: usize = 2_000_000;

/// Rows laid out by column.
pub struct ColumnsModel {
    pub ts_micros: Seq<i64>,
    pub price: Seq<Binary64>,
    pub quantity: Seq<Binary64>,
    pub side: Seq<Option<Seq<char>>>,
    pub exchange: Seq<Seq<char>>,
}

impl ColumnsModel {
    /// Whether all columns are equally long.
    pub open spec fn level(self) -> bool {
        let n = self.ts_micros.len();
        &&& self.price.len() == n
        &&& self.quantity.len() == n
        &&& self.side.len() == n
        &&& self.exchange.len() == n
    }

    /// The row at a place.
    pub open spec fn row(self, i: int) -> RowModel {
        RowModel {
            ts_micros: self.ts_micros[i],
            price: self.price[i],
            quantity: self.quantity[i],
            side: self.side[i],
            exchange: self.exchange[i],
        }
    }

    /// All rows, in order.
    pub open spec fn rows(self) -> Seq<RowModel> {
        Seq::new(self.ts_micros.len(), |i: int| self.row(i))
    }
}

/// What a side column holds.
pub open spec fn side_model(side: Option<&'static str>) -> Option<Seq<char>> {
    match side {
        Some(s) => Some(s@),
        None => None,
    }
}

/// What a column of owned sides holds.
pub open spec fn owned_side_model(side: Option<String>) -> Option<Seq<char>> {
    match side {
        Some(s) => Some(s@),
        None => None,
    }
}

/// The columns of a shard to write.
pub struct ShardColumns {
    pub row_group_size: usize,
    pub ts_micros: Vec<i64>,
    pub price: Vec<Binary64>,
    pub quantity: Vec<Binary64>,
    pub side: Vec<Option<&'static str>>,
    pub exchange: Vec<&'static str>,
}

impl View for ShardColumns {
    type V = ColumnsModel;

    open spec fn view(&self) -> ColumnsModel {
        ColumnsModel {
            ts_micros: self.ts_micros@,
            price: self.price@,
            quantity: self.quantity@,
            side: self.side@.map_values(|s: Option<&'static str>| side_model(s)),
            exchange: self.exchange@.map_values(|s: &'static str| s@),
        }
    }
}

/// The columns of one batch read from a shard.
pub struct OwnedColumns {
    pub ts_micros: Vec<i64>,
    pub price: Vec<Binary64>,
    pub quantity: Vec<Binary64>,
    pub side: Vec<Option<String>>,
    pub exchange: Vec<String>,
}

impl View for OwnedColumns {
    type V = ColumnsModel;

    open spec fn view(&self) -> ColumnsModel {
        ColumnsModel {
            ts_micros: self.ts_micros@,
            price: self.price@,
            quantity: self.quantity@,
            side: self.side@.map_values(|s: Option<String>| owned_side_model(s)),
            exchange: self.exchange@.map_values(|s: String| s@),
        }
    }
}

/// What trade rows hold.
pub open spec fn models(rows: Seq<TradeRow>) -> Seq<RowModel> {
    rows.map_values(|r: TradeRow| r@)
}

/// What owned rows hold.
pub open spec fn owned_models(rows: Seq<OwnedRow>) -> Seq<RowModel> {
    rows.map_values(|r: OwnedRow| r@)
}

impl DataStore {
    /// Lays the rows of a shard out by column, with the size of its row groups: all
    /// rows in one group, but no more than [`MAX_ROW_GROUP`] and at least one.
    pub fn write_shard(&self, rows: &Vec<TradeRow>) -> (columns: ShardColumns)
        ensures
            columns@.level(),
            columns@.rows() == models(rows@),
            columns.ts_micros@.len() == rows@.len(),
            columns.price@.len() == rows@.len(),
            columns.quantity@.len() == rows@.len(),
            columns.side@.len() == rows@.len(),
            columns.exchange@.len() == rows@.len(),
            forall|i: int|
                0 <= i < rows@.len() ==> {
                    let r = #[trigger] rows@[i];
                    &&& columns.ts_micros@[i] == r.ts_micros
                    &&& columns.price@[i] == r.price
                    &&& columns.quantity@[i] == r.quantity
                    &&& columns.side@[i] == r.side
                    &&& columns.exchange@[i] == r.exchange
                },
            rows@.len() >= 2_000_000 ==> columns.row_group_size == 2_000_000,
            1 <= rows@.len() < 2_000_000 ==> columns.row_group_size == rows@.len(),
            columns.row_group_size == if rows@.len() > MAX_ROW_GROUP {
                MAX_ROW_GROUP as int
            } else if rows@.len() == 0 {
                1
            } else {
                rows@.len() as int
            },
    {
        let n: usize = rows.len();
        let row_group_size: usize = if n > MAX_ROW_GROUP {
            MAX_ROW_GROUP
        } else if n == 0 {
            1
        } else {
            n
        };
        let mut ts_micros: Vec<i64> = Vec::with_capacity(n);
        let mut price: Vec<Binary64> = Vec::with_capacity(n);
        let mut quantity: Vec<Binary64> = Vec::with_capacity(n);
        let mut side: Vec<Option<&'static str>> = Vec::with_capacity(n);
        let mut exchange: Vec<&'static str> = Vec::with_capacity(n);
        for i in 0..n
            invariant
                n == rows@.len(),
                ts_micros@.len() == i,
                price@.len() == i,
                quantity@.len() == i,
                side@.len() == i,
                exchange@.len() == i,
                forall|j: int|
                    0 <= j < i ==> {
                        let r = #[trigger] rows@[j];
                        &&& ts_micros@[j] == r.ts_micros
                        &&& price@[j] == r.price
                        &&& quantity@[j] == r.quantity
                        &&& side@[j] == r.side
                        &&& exchange@[j] == r.exchange
                    },
        {
            let row = rows[i];
            ts_micros.push(row.ts_micros);
            price.push(row.price);
            quantity.push(row.quantity);
            side.push(row.side);
            exchange.push(row.exchange);
        }
        let columns = ShardColumns { row_group_size, ts_micros, price, quantity, side, exchange };
        proof {
            assert forall|j: int| 0 <= j < n implies columns@.row(j) == #[trigger] models(rows@)[j] by {
                assert(models(rows@)[j] == rows@[j]@);
            }
            assert(columns@.rows() =~= models(rows@));
        }
        columns
    }
}

/// The rows that batches of columns hold, one batch after the other.
pub open spec fn batch_rows(batches: Seq<OwnedColumns>) -> Seq<RowModel>
    decreases batches.len(),
{
    if batches.len() == 0 {
        Seq::empty()
    } else {
        batch_rows(batches.drop_last()) + batches.last()@.rows()
    }
}

impl DataStore {
    /// Turns the batches read from a shard into rows.
    pub fn read_shard_owned(&self, batches: &Vec<OwnedColumns>) -> (rows: Vec<OwnedRow>)
        requires
            forall|b: int| 0 <= b < batches@.len() ==> (#[trigger] batches@[b])@.level(),
        ensures
            owned_models(rows@) == batch_rows(batches@),
    {
        let mut rows: Vec<OwnedRow> = Vec::new();
        assert(owned_models(rows@) =~= batch_rows(batches@.take(0)));
        for b in 0..batches.len()
            invariant
                forall|b: int| 0 <= b < batches@.len() ==> (#[trigger] batches@[b])@.level(),
                owned_models(rows@) == batch_rows(batches@.take(b as int)),
        {
            let batch = &batches[b];
            let ghost before = owned_models(rows@);
            let n: usize = batch.ts_micros.len();
            assert(batch@.level());
            assert(owned_models(rows@) =~= before + batch@.rows().take(0));
            for i in 0..n
                invariant
                    batch@.level(),
                    n == batch.ts_micros@.len(),
                    owned_models(rows@) == before + batch@.rows().take(i as int),
            {
                assert(batch@.side.len() == batch.side@.len());
                assert(batch@.exchange.len() == batch.exchange@.len());
                let side: Option<String> = match &batch.side[i] {
                    Some(s) => Some(s.clone()),
                    None => None,
                };
                let row = OwnedRow {
                    ts_micros: batch.ts_micros[i],
                    price: batch.price[i],
                    quantity: batch.quantity[i],
                    side,
                    exchange: batch.exchange[i].clone(),
                };
                let ghost held = rows@;
                rows.push(row);
                proof {
                    assert(batch@.side[i as int] == owned_side_model(batch.side@[i as int]));
                    assert(batch@.exchange[i as int] == batch.exchange@[i as int]@);
                    assert(row@ == batch@.row(i as int));
                    assert(owned_models(rows@) =~= owned_models(held).push(row@));
                    assert(batch@.rows().take(i + 1) =~= batch@.rows().take(i as int).push(row@));
                    assert(owned_models(rows@) =~= before + batch@.rows().take(i + 1));
                }
            }
            assert(batch@.rows().take(n as int) =~= batch@.rows());
            assert(batches@.take(b + 1).drop_last() =~= batches@.take(b as int));
        }
        assert(batches@.take(batches@.len() as int) =~= batches@);
        rows
    }
}

// ── Texts that every row shares ─────────────────────────────────────────────

/// A side's name as it is kept: `sell` for itself, and `buy` for anything else.
pub open spec fn static_side(s: Seq<char>) -> Seq<char> {
    if s == "sell"@ {
        "sell"@
    } else {
        "buy"@
    }
}

/// The kept name of a side.
pub fn side_to_static(s: &str) -> (name: &'static str)
    ensures
        name@ == static_side(s@),
        s@ == "sell"@ ==> name@ == "sell"@,
        s@ != "sell"@ ==> name@ == "buy"@,
{
    if same_text(s, "sell") {
        "sell"
    } else {
        "buy"
    }
}

/// Whether a text is the name of one of the four exchanges.
pub open spec fn is_exchange(s: Seq<char>) -> bool {
    s == "binance"@ || s == "kraken"@ || s == "bitstamp"@ || s == "coinbase"@
}

/// An exchange's name as it is kept: itself for one of the four, and `unknown`
/// for anything else.
pub open spec fn static_exchange(s: Seq<char>) -> Seq<char> {
    if is_exchange(s) {
        s
    } else {
        "unknown"@
    }
}

/// The kept name of an exchange.
pub fn exchange_to_static(s: &str) -> (name: &'static str)
    ensures
        name@ == static_exchange(s@),
        s@ == "binance"@ || s@ == "kraken"@ || s@ == "bitstamp"@ || s@ == "coinbase"@ ==> name@
            == s@,
        s@ != "binance"@ && s@ != "kraken"@ && s@ != "bitstamp"@ && s@ != "coinbase"@ ==> name@
            == "unknown"@,
{
    if same_text(s, "binance") {
        "binance"
    } else if same_text(s, "kraken") {
        "kraken"
    } else if same_text(s, "bitstamp") {
        "bitstamp"
    } else if same_text(s, "coinbase") {
        "coinbase"
    } else {
        "unknown"
    }
}

/// A row as it is taken back into memory.
pub open spec fn kept(row: RowModel) -> RowModel {
    RowModel {
        side: match row.side {
            Some(s) => Some(static_side(s)),
            None => None,
        },
        exchange: static_exchange(row.exchange),
        ..row
    }
}

impl DataStore {
    /// Takes the rows of a shard back into memory, so that the month can be
    /// continued and its shard replaced.
    pub fn read_shard_for_seed(&self, batches: &Vec<OwnedColumns>) -> (rows: Vec<TradeRow>)
        requires
            forall|b: int| 0 <= b < batches@.len() ==> (#[trigger] batches@[b])@.level(),
        ensures
            models(rows@) == batch_rows(batches@).map_values(|r: RowModel| kept(r)),
    {
        let owned = self.read_shard_owned(batches);
        let mut rows: Vec<TradeRow> = Vec::with_capacity(owned.len());
        for i in 0..owned.len()
            invariant
                rows@.len() == i,
                forall|j: int| 0 <= j < i ==> (#[trigger] rows@[j])@ == kept(owned@[j]@),
        {
            let r = &owned[i];
            let side: Option<&'static str> = match &r.side {
                Some(s) => Some(side_to_static(s.as_str())),
                None => None,
            };
            let exchange = exchange_to_static(r.exchange.as_str());
            rows.push(
                TradeRow { ts_micros: r.ts_micros, price: r.price, quantity: r.quantity, side, exchange },
            );
        }
        proof {
            let wanted = batch_rows(batches@).map_values(|r: RowModel| kept(r));
            assert(owned_models(owned@).len() == owned@.len());
            assert forall|j: int| 0 <= j < rows@.len() implies models(rows@)[j] == wanted[j] by {
                assert(owned_models(owned@)[j] == owned@[j]@);
            }
            assert(models(rows@) =~= wanted);
        }
        rows
    }
}

/// Whether a row has only texts that are kept as they are.
pub open spec fn has_kept_texts(row: RowModel) -> bool {
    &&& is_exchange(row.exchange)
    &&& row.side matches Some(s) ==> s == "buy"@ || s == "sell"@
}

/// Rows that were written to a shard and taken back are the rows that were
/// written, whatever batches they are read in.
pub proof fn law_written_rows_read_back(
    rows: Seq<TradeRow>,
    columns: ShardColumns,
    batches: Seq<OwnedColumns>,
    seeded: Seq<TradeRow>,
)
    requires
        forall|i: int| 0 <= i < rows.len() ==> has_kept_texts((#[trigger] rows[i])@),
        columns@.rows() == models(rows),
        batch_rows(batches) == columns@.rows(),
        models(seeded) == batch_rows(batches).map_values(|r: RowModel| kept(r)),
    ensures
        models(seeded) == models(rows),
{
    reveal_strlit("buy");
    reveal_strlit("sell");
    assert("buy"@.len() == 3 && "sell"@.len() == 4);
    assert forall|i: int| 0 <= i < rows.len() implies #[trigger] models(seeded)[i] == models(
        rows,
    )[i] by {
        assert(models(rows)[i] == rows[i]@);
        assert(kept(rows[i]@) =~= rows[i]@);
    }
    assert(models(seeded) =~= models(rows));
}

/// A row belongs to the month that its time lies in, or to the earliest month of
/// all where it lies outside the calendar.
pub proof fn law_rows_belong_to_their_month(row: TradeRow, key: (i32, u32))
    ensures
        placeable(row.ts_micros as int) ==> in_month(
            row.ts_micros as int,
            row_month(row).0 as int,
            row_month(row).1 as int,
        ),
        in_month(row.ts_micros as int, key.0 as int, key.1 as int) && placeable(
            row.ts_micros as int,
        ) ==> row_month(row) == key,
        !placeable(row.ts_micros as int) ==> row_month(row) == (-262_143i32, 1u32),
{
    if placeable(row.ts_micros as int) {
        lemma_placed(row.ts_micros as int);
        if in_month(row.ts_micros as int, key.0 as int, key.1 as int) {
            lemma_month_of(row.ts_micros as int, key);
        }
    } else {
        lemma_min_micros();
    }
}

/// Splitting loses no row, adds none and moves none to another month: every row of
/// a shard is one of the batch and lies in the shard's month, every row of the
/// batch is in one shard, and the months of the shards ascend. A shard is kept
/// under the root, the exchange, the year and the month.
pub proof fn law_splitting_keeps_every_row_in_its_month(
    writes: Seq<ShardWrite>,
    rows: Seq<TradeRow>,
    root: Seq<char>,
    exchange: Seq<char>,
)
    requires
        splits_by_month(writes, rows, root, exchange),
        forall|r: int| 0 <= r < rows.len() ==> placeable((#[trigger] rows[r]).ts_micros as int),
    ensures
        forall|w: int, i: int|
            0 <= w < writes.len() && 0 <= i < writes[w].rows@.len() ==> rows.contains(
                #[trigger] writes[w].rows@[i],
            ) && in_month(
                writes[w].rows@[i].ts_micros as int,
                writes[w].year as int,
                writes[w].month as int,
            ),
        forall|row: TradeRow|
            #![trigger rows.contains(row)]
            rows.contains(row) ==> exists|w: int|
                0 <= w < writes.len() && (#[trigger] writes[w]).rows@.contains(row),
        forall|v: int, w: int|
            0 <= v < w < writes.len() ==> (#[trigger] writes[v]).year < (#[trigger] writes[w]).year
                || (writes[v].year == writes[w].year && writes[v].month < writes[w].month),
        forall|w: int|
            0 <= w < writes.len() ==> (#[trigger] writes[w]).rows@.len() > 0 && writes[w].path@
                == joined(
                joined(joined(root, exchange), integer_text(writes[w].year as int)),
                two_digit_text(writes[w].month as nat) + ".parquet"@,
            ),
{
    assert forall|w: int, i: int|
        0 <= w < writes.len() && 0 <= i < writes[w].rows@.len() implies rows.contains(
        #[trigger] writes[w].rows@[i],
    ) && in_month(
        writes[w].rows@[i].ts_micros as int,
        writes[w].year as int,
        writes[w].month as int,
    ) by {
        let key = writes[w].key();
        let row = writes[w].rows@[i];
        let pred = |row: TradeRow| row_month(row) == key;
        assert(writes[w].rows@ == month_rows(rows, key));
        rows.lemma_filter_contains_rev(pred, row);
        rows.lemma_filter_pred(pred, i);
        let r = choose|r: int| 0 <= r < rows.len() && rows[r] == row;
        assert(placeable(rows[r].ts_micros as int));
        law_rows_belong_to_their_month(row, key);
    }
    assert forall|row: TradeRow|
        #![trigger rows.contains(row)]
        rows.contains(row) implies exists|w: int|
        0 <= w < writes.len() && (#[trigger] writes[w]).rows@.contains(row) by {
        let r = choose|r: int| 0 <= r < rows.len() && rows[r] == row;
        let key = row_month(rows[r]);
        assert(has_month(writes, key));
        let w = choose|w: int| 0 <= w < writes.len() && (#[trigger] writes[w]).key() == key;
        assert(writes[w].rows@ == month_rows(rows, key));
        lemma_row_is_in_its_month(rows, r);
        assert(writes[w].rows@.contains(rows[r]));
    }
}

proof fn lemma_row_is_in_its_month(rows: Seq<TradeRow>, r: int)
    requires
        0 <= r < rows.len(),
    ensures
        month_rows(rows, row_month(rows[r])).contains(rows[r]),
    decreases rows.len(),
{
    let key = row_month(rows[r]);
    let head = rows.drop_last();
    lemma_month_rows_push(head, rows.last(), key);
    assert(head.push(rows.last()) =~= rows);
    let (before, all) = (month_rows(head, key), month_rows(rows, key));
    if r < head.len() {
        lemma_row_is_in_its_month(head, r);
        assert(head[r] == rows[r]);
        let i = choose|i: int| 0 <= i < before.len() && before[i] == rows[r];
        assert(all[i] == rows[r]);
    } else {
        assert(all[all.len() - 1] == rows[r]);
    }
}

/// The number of rows in the first batches.
pub open spec fn rows_before(batches: Seq<OwnedColumns>, b: int) -> int
    decreases b,
{
    if b <= 0 {
        0
    } else {
        rows_before(batches, b - 1) + batches[b - 1].ts_micros@.len()
    }
}

/// Batches are read row by row and column by column: the row at a place of a batch
/// has the time, price, quantity, side and exchange that stand at this place of the
/// batch's columns, and the rows of a batch follow those of the batches before it.
pub proof fn law_batches_are_read_column_by_column(
    batches: Seq<OwnedColumns>,
    rows: Seq<OwnedRow>,
    b: int,
    i: int,
)
    requires
        forall|b: int| 0 <= b < batches.len() ==> (#[trigger] batches[b])@.level(),
        owned_models(rows) == batch_rows(batches),
        0 <= b < batches.len(),
        0 <= i < batches[b].ts_micros@.len(),
    ensures
        rows.len() == rows_before(batches, batches.len() as int),
        ({
            let k = rows_before(batches, b) + i;
            &&& 0 <= k < rows.len()
            &&& rows[k].ts_micros == batches[b].ts_micros@[i]
            &&& rows[k].price == batches[b].price@[i]
            &&& rows[k].quantity == batches[b].quantity@[i]
            &&& match batches[b].side@[i] {
                Some(s) => rows[k].side matches Some(t) && t@ == s@,
                None => rows[k].side is None,
            }
            &&& rows[k].exchange@ == batches[b].exchange@[i]@
        }),
{
    let n = batches.len() as int;
    assert(batches.take(n) =~= batches);
    lemma_batch_places(batches, n, b, i);
    let k = rows_before(batches, b) + i;
    assert(owned_models(rows).len() == rows.len());
    assert(owned_models(rows)[k] == rows[k]@);
    let c = batches[b];
    assert(c@.level());
    assert(c@.side[i] == owned_side_model(c.side@[i]));
    assert(c@.exchange[i] == c.exchange@[i]@);
}

proof fn lemma_batch_places(batches: Seq<OwnedColumns>, n: int, b: int, i: int)
    requires
        0 <= b < n <= batches.len(),
        0 <= i < batches[b].ts_micros@.len(),
    ensures
        batch_rows(batches.take(n)).len() == rows_before(batches, n),
        0 <= rows_before(batches, b),
        rows_before(batches, b) + i < rows_before(batches, n),
        batch_rows(batches.take(n))[rows_before(batches, b) + i] == batches[b]@.row(i),
    decreases n,
{
    let some = batches.take(n);
    assert(some.drop_last() =~= batches.take(n - 1));
    lemma_batch_lengths(batches, n - 1);
    lemma_batch_lengths(batches, b);
    assert(some.last() == batches[n - 1]);
    assert(batches[n - 1]@.rows().len() == batches[n - 1].ts_micros@.len());
    if b < n - 1 {
        lemma_batch_places(batches, n - 1, b, i);
    } else {
        assert(batches[b]@.rows()[i] == batches[b]@.row(i));
    }
}

proof fn lemma_batch_lengths(batches: Seq<OwnedColumns>, n: int)
    requires
        0 <= n <= batches.len(),
    ensures
        batch_rows(batches.take(n)).len() == rows_before(batches, n),
        rows_before(batches, n) >= 0,
    decreases n,
{
    if n > 0 {
        assert(batches.take(n).drop_last() =~= batches.take(n - 1));
        assert(batches.take(n).last() == batches[n - 1]);
        assert(batches[n - 1]@.rows().len() == batches[n - 1].ts_micros@.len());
        lemma_batch_lengths(batches, n - 1);
    }
}

/// Rows taken back into memory keep their time, price and quantity; a side that is
/// not a sell counts as a buy, and an exchange that is none of the four as unknown.
pub proof fn law_rows_taken_back_keep_their_numbers(row: RowModel)
    ensures
        kept(row).ts_micros == row.ts_micros,
        kept(row).price == row.price,
        kept(row).quantity == row.quantity,
        row.side is None ==> kept(row).side is None,
        row.side matches Some(s) ==> kept(row).side == Some(
            if s == "sell"@ {
                "sell"@
            } else {
                "buy"@
            },
        ),
        kept(row).exchange == (if row.exchange == "binance"@ || row.exchange == "kraken"@
            || row.exchange == "bitstamp"@ || row.exchange == "coinbase"@ {
            row.exchange
        } else {
            "unknown"@
        }),
{
}

/// What a row is taken to hold is what it holds.
pub proof fn law_rows_are_what_they_hold(row: TradeRow, owned: OwnedRow)
    ensures
        row@.ts_micros == row.ts_micros && owned@.ts_micros == owned.ts_micros,
        row@.price == row.price && owned@.price == owned.price,
        row@.quantity == row.quantity && owned@.quantity == owned.quantity,
        row@.exchange == row.exchange@ && owned@.exchange == owned.exchange@,
        row.side is None ==> row@.side is None,
        row.side matches Some(s) ==> row@.side == Some(s@),
        owned.side is None ==> owned@.side is None,
        owned.side matches Some(s) ==> owned@.side == Some(s@),
{
}

/// A shard holds a row as often as the batch does, where the row is of its month.
pub proof fn law_shards_hold_rows_as_often(rows: Seq<TradeRow>, key: (i32, u32), row: TradeRow)
    requires
        row_month(row) == key,
    ensures
        month_rows(rows, key).to_multiset().count(row) == rows.to_multiset().count(row),
    decreases rows.len(),
{
    broadcast use vstd::seq_lib::group_to_multiset_ensures;

    if rows.len() > 0 {
        let head = rows.drop_last();
        law_shards_hold_rows_as_often(head, key, row);
        lemma_month_rows_push(head, rows.last(), key);
        assert(head.push(rows.last()) =~= rows);
    } else {
        reveal(Seq::filter);
        assert(month_rows(rows, key) =~= rows);
    }
}

} // verus!
