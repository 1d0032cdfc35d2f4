//! Reading the shards of all exchanges back in the order of time, and writing
//! them out as CSV.

use rayon::slice::ParallelSliceMut;
use vstd::prelude::*;

use crate::calendar::{
    earlier_month, in_month, keys_in_order, lemma_month_in_its_place, lemma_months_increase,
    month_start,
};
use crate::historical::schema::{owned_ascending, OwnedRow, RowModel};
use crate::historical::store::shard_name;
use crate::text::{
    bounded_value, decimal, file_stem, integer_text, integer_value, is_digit, last_dot,
    law_integer_text_reads_back, law_two_digit_text_reads_back, lemma_decimal_is_digits, parse_i32,
    parse_u32, stem, two_digit_text, unsigned_value, write_i64,
};

verus! {

// ── Which months there are ──────────────────────────────────────────────────

/// The name of a directory under an exchange's directory, with the names of the
/// files in it.
pub struct YearListing {
    pub name: String,
    pub files: Vec<String>,
}

/// The year that a directory's name stands for.
pub open spec fn listed_year(name: Seq<char>) -> Option<int> {
    bounded_value(name, i32::MIN as int, i32::MAX as int)
}

/// The month that a file's name stands for.
pub open spec fn listed_month(name: Seq<char>) -> Option<int> {
    unsigned_value(stem(name), u32::MAX as int)
}

/// Whether a file of a listing is a month's shard.
pub open spec fn file_lists(listing: YearListing, f: int, key: (i32, u32)) -> bool {
    &&& 0 <= f < listing.files@.len()
    &&& listed_year(listing.name@) == Some(key.0 as int)
    &&& listed_month(listing.files@[f]@) == Some(key.1 as int)
}

/// Whether a listing has a shard of a month.
pub open spec fn year_lists(listing: YearListing, key: (i32, u32)) -> bool {
    exists|f: int| #[trigger] file_lists(listing, f, key)
}

/// Whether any of the listings has a shard of a month.
pub open spec fn lists(listings: Seq<YearListing>, key: (i32, u32)) -> bool {
    exists|l: int| 0 <= l < listings.len() && year_lists(#[trigger] listings[l], key)
}

/// Puts a month in its place among others, unless it is there already.
fn insert_key(keys: &mut Vec<(i32, u32)>, key: (i32, u32))
    requires
        keys_in_order(old(keys)@),
    ensures
        keys_in_order(final(keys)@),
        forall|k: (i32, u32)| #[trigger]
            final(keys)@.contains(k) <==> old(keys)@.contains(k) || k == key,
{
    let ghost before = keys@;
    let mut i: usize = keys.len();
    while i > 0 && (key.0 < keys[i - 1].0 || (key.0 == keys[i - 1].0 && key.1 < keys[i - 1].1))
        invariant
            i <= keys@.len(),
            keys@ == before,
            forall|j: int| i <= j < keys@.len() ==> earlier_month(key, #[trigger] keys@[j]),
        decreases i,
    {
        i = i - 1;
    }
    if i > 0 && keys[i - 1].0 == key.0 && keys[i - 1].1 == key.1 {
        assert(before[i - 1] == key);
        return;
    }
    keys.insert(i, key);
    proof {
        lemma_month_in_its_place(before, i as int, key);
        assert(keys@ == before.insert(i as int, key));
        assert forall|k: (i32, u32)| #[trigger] keys@.contains(k) <==> before.contains(k) || k
            == key by {
            if before.contains(k) {
                let j = choose|j: int| 0 <= j < before.len() && before[j] == k;
                if j < i {
                    assert(keys@[j] == k);
                } else {
                    assert(keys@[j + 1] == k);
                }
            }
            if k == key {
                assert(keys@[i as int] == k);
            }
            if keys@.contains(k) {
                let j = choose|j: int| 0 <= j < keys@.len() && keys@[j] == k;
                if j < i {
                    assert(before[j] == k);
                } else if j > i {
                    assert(before[j - 1] == k);
                }
            }
        }
    }
}

/// The months that have a shard, ascending. A directory whose name is no year
/// is passed over, and so is a file whose stem is no month.
pub fn collect_month_keys(listings: &Vec<YearListing>) -> (keys: Vec<(i32, u32)>)
    ensures
        keys_in_order(keys@),
        forall|k: (i32, u32)| #[trigger] keys@.contains(k) <==> lists(listings@, k),
{
    let mut keys: Vec<(i32, u32)> = Vec::new();
    for l in 0..listings.len()
        invariant
            keys_in_order(keys@),
            forall|k: (i32, u32)| #[trigger]
                keys@.contains(k) <==> lists(listings@.take(l as int), k),
    {
        let listing = &listings[l];
        let ghost before = keys@;
        let ghost some = listings@.take(l as int);
        if let Some(year) = parse_i32(listing.name.as_str()) {
            for f in 0..listing.files.len()
                invariant
                    keys_in_order(keys@),
                    listed_year(listing.name@) == Some(year as int),
                    forall|k: (i32, u32)| #[trigger]
                        keys@.contains(k) <==> before.contains(k) || exists|g: int|
                            g < f && #[trigger] file_lists(*listing, g, k),
            {
                let ghost held = keys@;
                let name_stem = file_stem(listing.files[f].as_str());
                let month = parse_u32(name_stem.as_str());
                if let Some(m) = month {
                    insert_key(&mut keys, (year, m));
                }
                proof {
                    assert forall|k: (i32, u32)| #[trigger] keys@.contains(k) <==> before.contains(
                        k,
                    ) || exists|g: int| g < f + 1 && #[trigger] file_lists(*listing, g, k) by {
                        assert(held.contains(k) <==> before.contains(k) || exists|g: int|
                            g < f && #[trigger] file_lists(*listing, g, k));
                        if file_lists(*listing, f as int, k) {
                            assert(month == Some(k.1));
                            assert(k == (year, month->0));
                        }
                        if month is Some && k == (year, month->0) {
                            assert(file_lists(*listing, f as int, k));
                        }
                    }
                }
            }
        }
        proof {
            let more = listings@.take(l + 1);
            assert forall|k: (i32, u32)| #[trigger] keys@.contains(k) <==> lists(more, k) by {
                assert(more[l as int] == *listing);
                assert(forall|j: int| 0 <= j < l ==> more[j] == some[j]);
                if lists(some, k) {
                    let j = choose|j: int| 0 <= j < some.len() && year_lists(#[trigger] some[j], k);
                    assert(year_lists(more[j], k));
                }
                if year_lists(*listing, k) {
                    assert(year_lists(more[l as int], k));
                }
                if lists(more, k) {
                    let j = choose|j: int| 0 <= j < more.len() && year_lists(#[trigger] more[j], k);
                    if j < l {
                        assert(year_lists(some[j], k));
                    }
                }
                if year_lists(*listing, k) {
                    let f = choose|f: int| #[trigger] file_lists(*listing, f, k);
                    assert(f < listing.files@.len() && file_lists(*listing, f, k));
                }
            }
        }
    }
    assert(listings@.take(listings@.len() as int) =~= listings@);
    keys
}

/// The directory and the file that a month's shard is written to are read back
/// as that month.
pub proof fn law_shard_paths_name_their_month(year: i32, month: u32)
    ensures
        listed_year(integer_text(year as int)) == Some(year as int),
        listed_month(shard_name(month as nat)) == Some(month as int),
{
    law_integer_text_reads_back(year as int);
    law_two_digit_text_reads_back(month);
    reveal_strlit(".parquet");
    let t = two_digit_text(month as nat);
    let ext = ".parquet"@;
    let name = shard_name(month as nat);
    assert(ext.len() == 8);
    assert(last_dot(name) == t.len()) by {
        assert forall|k: int| 1 <= k <= 8 implies #[trigger] last_dot(t + ext.take(k)) == t.len() by {
            lemma_extension(t, k);
        }
        assert(ext.take(8) =~= ext);
        assert(name == t + ext.take(8));
    }
    assert(name.take(t.len() as int) =~= t);
}

/// However much of the extension follows a stem, its dot is the last one.
proof fn lemma_extension(t: Seq<char>, k: int)
    requires
        1 <= k <= 8,
    ensures
        last_dot(t + ".parquet"@.take(k)) == t.len(),
    decreases k,
{
    reveal_strlit(".parquet");
    let ext = ".parquet"@;
    let name = t + ext.take(k);
    assert(name.last() == ext[k - 1]);
    if k > 1 {
        lemma_extension(t, k - 1);
        assert(name.drop_last() =~= t + ext.take(k - 1));
    }
}

// ── One month of all exchanges ──────────────────────────────────────────────

/// Sorts rows by their timestamps, through
/// `rayon::slice::ParallelSliceMut::par_sort_unstable_by_key`: afterwards they
/// are ascending, and they are the same rows as before. Which of two rows with
/// one timestamp comes first is left open.
#[verifier::external_body]
fn sort_by_time(rows: &mut Vec<OwnedRow>)
    ensures
        owned_ascending(final(rows)@),
        final(rows)@.to_multiset() == old(rows)@.to_multiset(),
{
    rows.par_sort_unstable_by_key(|r| r.ts_micros);
}

/// The rows of several chunks, one chunk after the other.
pub open spec fn chained(chunks: Seq<Vec<OwnedRow>>) -> Seq<OwnedRow>
    decreases chunks.len(),
{
    if chunks.len() == 0 {
        Seq::empty()
    } else {
        chunks.first()@ + chained(chunks.drop_first())
    }
}

/// Merges the rows that the exchanges have for one month, in ascending order of
/// time.
pub fn merge_month(chunks: Vec<Vec<OwnedRow>>) -> (rows: Vec<OwnedRow>)
    ensures
        owned_ascending(rows@),
        forall|i: int, j: int|
            0 <= i < j < rows@.len() ==> (#[trigger] rows@[i]).ts_micros <= (
            #[trigger] rows@[j]).ts_micros,
        rows@.to_multiset() == chained(chunks@).to_multiset(),
{
    let ghost all = chained(chunks@);
    let mut rows: Vec<OwnedRow> = Vec::new();
    let mut rest = chunks;
    assert(rows@ + chained(rest@) =~= all);
    while rest.len() > 0
        invariant
            rows@ + chained(rest@) == all,
        decreases rest@.len(),
    {
        let ghost held = rest@;
        let mut chunk = rest.remove(0);
        assert(rest@ =~= held.drop_first());
        let ghost before = rows@;
        let ghost added = chunk@;
        rows.append(&mut chunk);
        assert(before + added + chained(rest@) =~= before + (added + chained(rest@)));
    }
    assert(rows@ + chained(rest@) =~= rows@);
    sort_by_time(&mut rows);
    rows
}

/// Whether every row lies in the month that it is read for.
pub open spec fn rows_in_month(rows: Seq<OwnedRow>, key: (i32, u32)) -> bool {
    forall|i: int|
        0 <= i < rows.len() ==> in_month(
            (#[trigger] rows[i]).ts_micros as int,
            key.0 as int,
            key.1 as int,
        )
}

/// The rows of several months, one month after the other.
pub open spec fn months_chained(months: Seq<Seq<OwnedRow>>) -> Seq<OwnedRow>
    decreases months.len(),
{
    if months.len() == 0 {
        Seq::empty()
    } else {
        months_chained(months.drop_last()) + months.last()
    }
}

/// Months taken in their order, each with its rows in ascending order, give all
/// rows in ascending order.
pub proof fn law_months_in_order_are_globally_ascending(
    keys: Seq<(i32, u32)>,
    months: Seq<Seq<OwnedRow>>,
)
    requires
        keys_in_order(keys),
        keys.len() == months.len(),
        forall|m: int|
            0 <= m < months.len() ==> owned_ascending(#[trigger] months[m]) && rows_in_month(
                months[m],
                keys[m],
            ),
    ensures
        owned_ascending(months_chained(months)),
{
    lemma_months_ascend(keys, months);
}

proof fn lemma_months_ascend(keys: Seq<(i32, u32)>, months: Seq<Seq<OwnedRow>>)
    requires
        keys_in_order(keys),
        keys.len() == months.len(),
        forall|m: int|
            0 <= m < months.len() ==> owned_ascending(#[trigger] months[m]) && rows_in_month(
                months[m],
                keys[m],
            ),
    ensures
        owned_ascending(months_chained(months)),
        forall|i: int, k: (i32, u32)|
            #![trigger months_chained(months)[i], earlier_month(keys.last(), k)]
            0 <= i < months_chained(months).len() && keys.len() > 0 && 1 <= k.1 <= 12
                && earlier_month(keys.last(), k) ==> months_chained(months)[i].ts_micros
                < month_start(k.0 as int, k.1 as int),
    decreases months.len(),
{
    if months.len() > 0 {
        let early = months.drop_last();
        let early_keys = keys.drop_last();
        let last = months.last();
        let last_key = keys.last();
        assert forall|m: int| 0 <= m < early.len() implies owned_ascending(#[trigger] early[m])
            && rows_in_month(early[m], early_keys[m]) by {
            assert(early[m] == months[m]);
        }
        lemma_months_ascend(early_keys, early);
        let head = months_chained(early);
        let all = months_chained(months);
        assert(last == months[months.len() - 1]);
        assert forall|i: int, j: int| 0 <= i <= j < all.len() implies (#[trigger] all[i]).ts_micros
            <= (#[trigger] all[j]).ts_micros by {
            if j < head.len() {
                assert(all[i] == head[i] && all[j] == head[j]);
            } else {
                assert(all[j] == last[j - head.len()]);
                if i >= head.len() {
                    assert(all[i] == last[i - head.len()]);
                } else {
                    assert(all[i] == head[i]);
                    assert(early_keys.len() > 0);
                    assert(earlier_month(keys[keys.len() - 2], keys[keys.len() - 1]));
                    assert(earlier_month(early_keys.last(), last_key));
                }
            }
        }
        assert forall|i: int, k: (i32, u32)|
            #![trigger all[i], earlier_month(keys.last(), k)]
            0 <= i < all.len() && 1 <= k.1 <= 12 && earlier_month(
                keys.last(),
                k,
            ) implies all[i].ts_micros < month_start(k.0 as int, k.1 as int) by {
            if i < head.len() {
                assert(all[i] == head[i]);
                assert(early_keys.len() > 0);
                assert(earlier_month(keys[keys.len() - 2], keys[keys.len() - 1]));
                assert(earlier_month(early_keys.last(), k));
            } else {
                assert(all[i] == last[i - head.len()]);
                lemma_months_increase(
                    last_key.0 as int,
                    last_key.1 as int,
                    k.0 as int,
                    k.1 as int,
                );
            }
        }
    }
}

// ── CSV ─────────────────────────────────────────────────────────────────────

/// Whether a character forces quotes round the field it stands in.
pub open spec fn forces_quotes(c: char) -> bool {
    c == ',' || c == '"' || c == '\r' || c == '\n'
}

/// Whether a field can stand in a CSV line as it is.
pub open spec fn is_plain(field: Seq<char>) -> bool {
    forall|i: int| 0 <= i < field.len() ==> !forces_quotes(#[trigger] field[i])
}

/// A text with every quotation mark doubled.
pub open spec fn doubled(field: Seq<char>) -> Seq<char>
    decreases field.len(),
{
    if field.len() == 0 {
        Seq::empty()
    } else if field.last() == '"' {
        doubled(field.drop_last()) + seq!['"', '"']
    } else {
        doubled(field.drop_last()).push(field.last())
    }
}

/// A field as it stands in a CSV line.
pub open spec fn csv_field(field: Seq<char>) -> Seq<char> {
    if is_plain(field) {
        field
    } else {
        seq!['"'] + doubled(field) + seq!['"']
    }
}

/// Fields with commas between them.
pub open spec fn csv_fields(fields: Seq<Seq<char>>) -> Seq<char>
    decreases fields.len(),
{
    if fields.len() == 0 {
        Seq::empty()
    } else if fields.len() == 1 {
        csv_field(fields[0])
    } else {
        csv_fields(fields.drop_last()).push(',') + csv_field(fields.last())
    }
}

/// The characters of several texts.
pub open spec fn texts(fields: Seq<String>) -> Seq<Seq<char>> {
    fields.map_values(|f: String| f@)
}

/// Writes one record of two fields or more as a CSV line, through
/// `csv::Writer::write_record` with the crate's default settings: commas between
/// the fields, a line feed at the end, and quotes round a field only where a
/// comma, a quotation mark or a line break stands in it.
#[verifier::external_body]
pub(crate) fn write_record(fields: &Vec<String>) -> (line: String)
    requires
        fields@.len() >= 2,
    ensures
        line@ == csv_fields(texts(fields@)).push('\n'),
{
    let mut writer = csv::Writer::from_writer(Vec::new());
    writer.write_record(fields).expect("writing to memory");
    let bytes = writer.into_inner().expect("flushing to memory");
    String::from_utf8(bytes).expect("fields are UTF-8")
}

/// The names of the columns of the merged CSV.
pub open spec fn csv_columns() -> Seq<Seq<char>> {
    seq!["ts_micros"@, "price"@, "quantity"@, "side"@, "exchange"@]
}

/// The first line of the merged CSV.
pub fn csv_header() -> (line: String)
    ensures
        line@ == csv_fields(csv_columns()).push('\n'),
{
    let mut fields: Vec<String> = Vec::new();
    fields.push("ts_micros".to_owned());
    fields.push("price".to_owned());
    fields.push("quantity".to_owned());
    fields.push("side".to_owned());
    fields.push("exchange".to_owned());
    assert(texts(fields@) =~= csv_columns());
    write_record(&fields)
}

/// A row's price and quantity, written out.
pub struct NumberTexts {
    pub price: String,
    pub quantity: String,
}

/// The fields of a row in the merged CSV. A row without a side has an empty
/// field for it.
pub open spec fn row_fields(row: RowModel, price: Seq<char>, quantity: Seq<char>) -> Seq<Seq<char>> {
    seq![
        integer_text(row.ts_micros as int),
        price,
        quantity,
        match row.side {
            Some(s) => s,
            None => Seq::empty(),
        },
        row.exchange,
    ]
}

/// The lines of rows in the merged CSV.
pub open spec fn csv_lines(rows: Seq<OwnedRow>, numbers: Seq<NumberTexts>) -> Seq<char>
    decreases rows.len(),
{
    if rows.len() == 0 {
        Seq::empty()
    } else {
        let i = rows.len() - 1;
        csv_lines(rows.drop_last(), numbers) + csv_fields(
            row_fields(rows[i]@, numbers[i].price@, numbers[i].quantity@),
        ).push('\n')
    }
}

/// Writes the rows of one month as lines of the merged CSV, given the texts of
/// their numbers.
pub fn emit_csv(rows: &Vec<OwnedRow>, numbers: &Vec<NumberTexts>) -> (lines: String)
    requires
        numbers@.len() == rows@.len(),
    ensures
        lines@ == csv_lines(rows@, numbers@),
{
    let mut out = String::new();
    for i in 0..rows.len()
        invariant
            numbers@.len() == rows@.len(),
            out@ == csv_lines(rows@.take(i as int), numbers@),
    {
        let row = &rows[i];
        let number = &numbers[i];
        let side: String = match &row.side {
            Some(s) => s.clone(),
            None => String::new(),
        };
        let mut fields: Vec<String> = Vec::new();
        fields.push(write_i64(row.ts_micros));
        fields.push(number.price.clone());
        fields.push(number.quantity.clone());
        fields.push(side);
        fields.push(row.exchange.clone());
        assert(texts(fields@) =~= row_fields(row@, number.price@, number.quantity@));
        let line = write_record(&fields);
        out.append(line.as_str());
        assert(rows@.take(i + 1).drop_last() =~= rows@.take(i as int));
    }
    assert(rows@.take(rows@.len() as int) =~= rows@);
    out
}

// ── The whole merged CSV ────────────────────────────────────────────────────

/// A month that was written: its rows, and the texts of their numbers.
pub struct CsvMonth {
    pub rows: Seq<OwnedRow>,
    pub numbers: Seq<NumberTexts>,
}

/// The rows of all months that were written.
pub open spec fn rows_exported(months: Seq<CsvMonth>) -> Seq<OwnedRow>
    decreases months.len(),
{
    if months.len() == 0 {
        Seq::empty()
    } else {
        rows_exported(months.drop_last()) + months.last().rows
    }
}

/// The texts of the numbers of all rows that were written.
pub open spec fn numbers_exported(months: Seq<CsvMonth>) -> Seq<NumberTexts>
    decreases months.len(),
{
    if months.len() == 0 {
        Seq::empty()
    } else {
        numbers_exported(months.drop_last()) + months.last().numbers
    }
}

/// The number of rows in all months that were written.
pub open spec fn months_total(months: Seq<CsvMonth>) -> int
    decreases months.len(),
{
    if months.len() == 0 {
        0
    } else {
        months_total(months.drop_last()) + months.last().rows.len()
    }
}

/// The lines of all months that were written, one month behind the other.
pub open spec fn lines_exported(months: Seq<CsvMonth>) -> Seq<char>
    decreases months.len(),
{
    if months.len() == 0 {
        Seq::empty()
    } else {
        lines_exported(months.drop_last()) + csv_lines(months.last().rows, months.last().numbers)
    }
}

/// The merged CSV while it is being written, month by month.
pub struct CsvExport {
    total_rows: u64,
    months: Ghost<Seq<CsvMonth>>,
}

impl View for CsvExport {
    type V = Seq<CsvMonth>;

    closed spec fn view(&self) -> Seq<CsvMonth> {
        self.months@
    }
}

impl CsvExport {
    /// Whether the count is that of the rows in the months written.
    pub closed spec fn wf(self) -> bool {
        self.total_rows == months_total(self.months@)
    }

    /// A CSV without rows.
    pub fn new() -> (e: Self)
        ensures
            e.wf(),
            e@ == Seq::<CsvMonth>::empty(),
    {
        CsvExport { total_rows: 0, months: Ghost(Seq::empty()) }
    }

    /// The number of rows in all months written so far.
    pub fn total_rows(&self) -> (n: u64)
        requires
            self.wf(),
        ensures
            n == months_total(self@),
    {
        self.total_rows
    }

    /// Writes the rows of the next month, and counts them.
    pub fn write_month(&mut self, rows: &Vec<OwnedRow>, numbers: &Vec<NumberTexts>) -> (lines:
        String)
        requires
            old(self).wf(),
            numbers@.len() == rows@.len(),
            months_total(old(self)@) + rows@.len() <= u64::MAX,
        ensures
            final(self).wf(),
            final(self)@ == old(self)@.push(CsvMonth { rows: rows@, numbers: numbers@ }),
            months_total(final(self)@) == months_total(old(self)@) + rows@.len(),
            lines@ == csv_lines(rows@, numbers@),
            lines_exported(final(self)@) == lines_exported(old(self)@) + lines@,
    {
        let ghost before = self.months@;
        let ghost month = CsvMonth { rows: rows@, numbers: numbers@ };
        self.total_rows = self.total_rows + rows.len() as u64;
        self.months = Ghost(before.push(month));
        assert(before.push(month).drop_last() =~= before);
        emit_csv(rows, numbers)
    }
}

proof fn lemma_lines_concat(
    a: Seq<OwnedRow>,
    x: Seq<NumberTexts>,
    b: Seq<OwnedRow>,
    y: Seq<NumberTexts>,
)
    requires
        a.len() == x.len(),
        b.len() == y.len(),
    ensures
        csv_lines(a + b, x + y) == csv_lines(a, x) + csv_lines(b, y),
    decreases b.len(),
{
    if b.len() == 0 {
        assert(a + b =~= a);
        assert(x + y =~= x);
        assert(csv_lines(a, x) + csv_lines(b, y) =~= csv_lines(a, x));
    } else {
        lemma_lines_concat(a, x, b.drop_last(), y.drop_last());
        lemma_lines_of_prefix(b.drop_last(), y);
        lemma_lines_of_prefix((a + b).drop_last(), x + y);
        assert((a + b).drop_last() =~= a + b.drop_last());
        assert(y.take(b.len() - 1) =~= y.drop_last());
        assert((x + y).take(a.len() + b.len() - 1) =~= x + y.drop_last());
        assert(csv_lines(a + b, x + y) =~= csv_lines(a, x) + csv_lines(b, y));
    }
}

/// The texts behind those of the rows play no part in their lines.
proof fn lemma_lines_of_prefix(rows: Seq<OwnedRow>, numbers: Seq<NumberTexts>)
    requires
        rows.len() <= numbers.len(),
    ensures
        csv_lines(rows, numbers) == csv_lines(rows, numbers.take(rows.len() as int)),
    decreases rows.len(),
{
    if rows.len() > 0 {
        let short = numbers.take(rows.len() as int);
        lemma_lines_of_prefix(rows.drop_last(), numbers);
        lemma_lines_of_prefix(rows.drop_last(), short);
        assert(short.take(rows.len() - 1) =~= numbers.take(rows.len() - 1));
    }
}

/// The merged CSV holds one record for each row of all months, in order, and the
/// count is the number of those rows.
pub proof fn law_the_csv_holds_every_row_once(months: Seq<CsvMonth>)
    requires
        forall|i: int|
            0 <= i < months.len() ==> (#[trigger] months[i]).rows.len() == months[i].numbers.len(),
    ensures
        months_total(months) == rows_exported(months).len(),
        numbers_exported(months).len() == rows_exported(months).len(),
        lines_exported(months) == csv_lines(rows_exported(months), numbers_exported(months)),
    decreases months.len(),
{
    if months.len() > 0 {
        let head = months.drop_last();
        let last = months.last();
        assert forall|i: int| 0 <= i < head.len() implies (#[trigger] head[i]).rows.len()
            == head[i].numbers.len() by {
            assert(head[i] == months[i]);
        }
        law_the_csv_holds_every_row_once(head);
        assert(last == months[months.len() - 1]);
        lemma_lines_concat(
            rows_exported(head),
            numbers_exported(head),
            last.rows,
            last.numbers,
        );
    }
}

/// The line of a row whose texts need no quotes is its five fields with commas
/// between them, and nothing else.
pub proof fn law_plain_rows_have_five_bare_fields(
    row: RowModel,
    price: Seq<char>,
    quantity: Seq<char>,
)
    requires
        is_plain(price),
        is_plain(quantity),
        is_plain(row.exchange),
        row.side matches Some(s) ==> is_plain(s),
    ensures
        csv_fields(row_fields(row, price, quantity)) == integer_text(row.ts_micros as int).push(',')
            + price.push(',') + quantity.push(',') + (match row.side {
            Some(s) => s,
            None => Seq::empty(),
        }).push(',') + row.exchange,
{
    lemma_integer_is_plain(row.ts_micros as int);
    let fields = row_fields(row, price, quantity);
    let four = fields.drop_last();
    let three = four.drop_last();
    let two = three.drop_last();
    let one = two.drop_last();
    reveal_with_fuel(csv_fields, 6);
    assert(csv_fields(one) == integer_text(row.ts_micros as int));
    assert(csv_fields(fields) =~= integer_text(row.ts_micros as int).push(',') + price.push(',')
        + quantity.push(',') + (match row.side {
        Some(s) => s,
        None => Seq::empty(),
    }).push(',') + row.exchange);
}

proof fn lemma_integer_is_plain(n: int)
    ensures
        is_plain(integer_text(n)),
{
    if n < 0 {
        lemma_decimal_is_digits((-n) as nat);
    } else {
        lemma_decimal_is_digits(n as nat);
    }
    let t = integer_text(n);
    assert forall|i: int| 0 <= i < t.len() implies !forces_quotes(#[trigger] t[i]) by {
        if n < 0 {
            if i > 0 {
                assert(is_digit(decimal((-n) as nat)[i - 1]));
                assert(t[i] == decimal((-n) as nat)[i - 1]);
            }
        } else {
            assert(is_digit(decimal(n as nat)[i]));
        }
    }
}

// ── What the merged CSV says ────────────────────────────────────────────────

/// The chunks of a month are taken one after the other, each with all its rows.
pub proof fn law_chunks_follow_one_another(first: Vec<OwnedRow>, rest: Seq<Vec<OwnedRow>>)
    ensures
        chained(Seq::empty()) == Seq::<OwnedRow>::empty(),
        chained(seq![first] + rest) == first@ + chained(rest),
{
    assert((seq![first] + rest).drop_first() =~= rest);
}

/// Each row has one line, behind those of the rows before it, with its time, the
/// texts of its price and its quantity, its side or nothing, and its exchange, in
/// this order.
pub proof fn law_each_row_has_one_line(
    rows: Seq<OwnedRow>,
    numbers: Seq<NumberTexts>,
    row: OwnedRow,
)
    requires
        rows.len() < numbers.len(),
    ensures
        csv_lines(Seq::empty(), numbers) == Seq::<char>::empty(),
        ({
            let n = numbers[rows.len() as int];
            let side = match row.side {
                Some(s) => s@,
                None => Seq::<char>::empty(),
            };
            csv_lines(rows.push(row), numbers) == csv_lines(rows, numbers) + csv_fields(
                seq![
                    integer_text(row.ts_micros as int),
                    n.price@,
                    n.quantity@,
                    side,
                    row.exchange@,
                ],
            ).push('\n')
        }),
{
    let all = rows.push(row);
    let n = numbers[rows.len() as int];
    assert(all.drop_last() =~= rows);
    let side = match row.side {
        Some(s) => s@,
        None => Seq::<char>::empty(),
    };
    assert(row_fields(row@, n.price@, n.quantity@) =~= seq![
        integer_text(row.ts_micros as int),
        n.price@,
        n.quantity@,
        side,
        row.exchange@,
    ]);
}

/// The columns are named in the order in which the fields of a row stand.
pub proof fn law_columns_are_named_in_order()
    ensures
        csv_columns().len() == 5,
        csv_columns()[0] == "ts_micros"@,
        csv_columns()[1] == "price"@,
        csv_columns()[2] == "quantity"@,
        csv_columns()[3] == "side"@,
        csv_columns()[4] == "exchange"@,
{
}

/// A month is listed exactly where a directory has its year as a name and a file
/// in it has its number as the part before the extension.
pub proof fn law_listed_months_have_a_file(listings: Seq<YearListing>, key: (i32, u32))
    ensures
        lists(listings, key) <==> exists|l: int, f: int|
            0 <= l < listings.len() && 0 <= f < listings[l].files@.len() && integer_value(
                listings[l].name@,
            ) == Some(key.0 as int) && unsigned_value(
                stem((#[trigger] listings[l].files@[f])@),
                0xFFFF_FFFF,
            ) == Some(key.1 as int),
{
    let found = |l: int, f: int|
        0 <= l < listings.len() && 0 <= f < listings[l].files@.len() && integer_value(
            listings[l].name@,
        ) == Some(key.0 as int) && unsigned_value(stem(listings[l].files@[f]@), 0xFFFF_FFFF) == Some(
            key.1 as int,
        );
    if lists(listings, key) {
        let l = choose|l: int| 0 <= l < listings.len() && year_lists(#[trigger] listings[l], key);
        let f = choose|f: int| #[trigger] file_lists(listings[l], f, key);
        assert(found(l, f));
        assert(listings[l].files@[f] == listings[l].files@[f]);
    }
    if exists|l: int, f: int|
        0 <= l < listings.len() && 0 <= f < listings[l].files@.len() && integer_value(
            listings[l].name@,
        ) == Some(key.0 as int) && unsigned_value(
            stem((#[trigger] listings[l].files@[f])@),
            0xFFFF_FFFF,
        ) == Some(key.1 as int) {
        let (l, f) = choose|l: int, f: int|
            0 <= l < listings.len() && 0 <= f < listings[l].files@.len() && integer_value(
                listings[l].name@,
            ) == Some(key.0 as int) && unsigned_value(
                stem((#[trigger] listings[l].files@[f])@),
                0xFFFF_FFFF,
            ) == Some(key.1 as int);
        assert(file_lists(listings[l], f, key));
        assert(year_lists(listings[l], key));
    }
}

/// A field stands in a line as it is, unless a comma, a quotation mark or a line
/// break stands in it; then it stands between quotation marks, with each of its
/// own doubled. Commas stand between fields.
pub proof fn law_fields_are_quoted_where_they_must_be(
    fields: Seq<Seq<char>>,
    field: Seq<char>,
    c: char,
)
    ensures
        ({
            let bare = forall|i: int|
                0 <= i < field.len() ==> #[trigger] field[i] != ',' && field[i] != '"' && field[i]
                    != '\r' && field[i] != '\n';
            &&& bare ==> csv_field(field) == field
            &&& !bare ==> csv_field(field) == seq!['"'] + doubled(field) + seq!['"']
        }),
        doubled(Seq::empty()) == Seq::<char>::empty(),
        c == '"' ==> doubled(field.push(c)) == doubled(field) + seq!['"', '"'],
        c != '"' ==> doubled(field.push(c)) == doubled(field).push(c),
        csv_fields(seq![field]) == csv_field(field),
        fields.len() > 0 ==> csv_fields(fields.push(field)) == csv_fields(fields) + seq![',']
            + csv_field(field),
{
    let bare = forall|i: int|
        0 <= i < field.len() ==> #[trigger] field[i] != ',' && field[i] != '"' && field[i] != '\r'
            && field[i] != '\n';
    assert(is_plain(field) == bare) by {
        if bare {
            assert forall|i: int| 0 <= i < field.len() implies !forces_quotes(
                #[trigger] field[i],
            ) by {}
        } else {
            let i = choose|i: int|
                0 <= i < field.len() && !(#[trigger] field[i] != ',' && field[i] != '"' && field[i]
                    != '\r' && field[i] != '\n');
            assert(forces_quotes(field[i]));
        }
    }
    assert(field.push(c).drop_last() =~= field);
    assert(fields.push(field).drop_last() =~= fields);
    assert(csv_fields(fields).push(',') + csv_field(field) =~= csv_fields(fields) + seq![',']
        + csv_field(field));
}

/// The texts of fields are their own characters.
pub proof fn law_texts_are_their_characters(fields: Seq<String>, i: int)
    requires
        0 <= i < fields.len(),
    ensures
        texts(fields).len() == fields.len(),
        texts(fields)[i] == fields[i]@,
{
}

} // verus!
