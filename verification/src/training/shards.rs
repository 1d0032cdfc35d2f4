//! Labelled rows in the files of their months, and what is said about them in
//! the manifest.
//!
//! A month has one CSV file: a header with the names of the features and `label`,
//! and one line per row.

use vstd::prelude::*;

use crate::calendar::{
    earlier_month, in_month, law_months_follow_time, lemma_month_of, lemma_placed, month_of,
    place_month, placeable,
};
use crate::historical::merge::{csv_fields, texts, write_record};
use crate::text::{integer_text, two_digit_text, write_i64, write_two_digits};
use crate::training::features::{feature_name_list, feature_names, N_FEATURES};

verus! {

// ── What is said of a month ─────────────────────────────────────────────────

/// What is said of a month's rows.
#[derive(Debug)]
pub struct ShardStats {
    pub file: String,
    pub year: i32,
    pub month: u32,
    pub rows: u64,
    pub bearish: u64,
    pub sideways: u64,
    pub bullish: u64,
    pub first_ts_micros: Option<i64>,
    pub last_ts_micros: Option<i64>,
}

/// The name of a month's file.
pub open spec fn shard_name(year: int, month: nat) -> Seq<char> {
    integer_text(year) + "-"@ + two_digit_text(month) + ".csv"@
}

/// Counts: rows, and rows of each label.
pub struct CountsModel {
    pub rows: int,
    pub bearish: int,
    pub sideways: int,
    pub bullish: int,
}

impl CountsModel {
    /// The counts with one more row of a label.
    pub open spec fn plus(self, label: u8) -> CountsModel {
        CountsModel {
            rows: self.rows + 1,
            bearish: self.bearish + if label == 0 {
                1int
            } else {
                0
            },
            sideways: self.sideways + if label == 1 {
                1int
            } else {
                0
            },
            bullish: self.bullish + if label == 2 {
                1int
            } else {
                0
            },
        }
    }

    /// The counts of both.
    pub open spec fn merged(self, other: CountsModel) -> CountsModel {
        CountsModel {
            rows: self.rows + other.rows,
            bearish: self.bearish + other.bearish,
            sideways: self.sideways + other.sideways,
            bullish: self.bullish + other.bullish,
        }
    }

    /// No rows.
    pub open spec fn none() -> CountsModel {
        CountsModel { rows: 0, bearish: 0, sideways: 0, bullish: 0 }
    }

    /// Whether every row has one of the three labels.
    pub open spec fn add_up(self) -> bool {
        self.rows == self.bearish + self.sideways + self.bullish
    }
}

impl ShardStats {
    /// The counts of a month's rows.
    pub open spec fn counts(self) -> CountsModel {
        CountsModel {
            rows: self.rows as int,
            bearish: self.bearish as int,
            sideways: self.sideways as int,
            bullish: self.bullish as int,
        }
    }

    /// The month.
    pub open spec fn key(self) -> (i32, u32) {
        (self.year, self.month)
    }

    /// Whether these are the stats of a month that has no rows yet.
    pub open spec fn is_fresh(self, year: i32, month: u32) -> bool {
        &&& self.file@ == shard_name(year as int, month as nat)
        &&& self.key() == (year, month)
        &&& self.counts() == CountsModel::none()
        &&& self.first_ts_micros is None
        &&& self.last_ts_micros is None
    }

    /// Whether these are the stats of the same file and month.
    pub open spec fn same_shard(self, other: ShardStats) -> bool {
        self.file@ == other.file@ && self.key() == other.key()
    }

    /// Whether one more row of a label can be counted.
    pub open spec fn has_room(self, label: u8) -> bool {
        &&& self.rows < u64::MAX
        &&& label == 0 ==> self.bearish < u64::MAX
        &&& label == 1 ==> self.sideways < u64::MAX
        &&& label == 2 ==> self.bullish < u64::MAX
    }

    /// The stats of a month that has no rows yet.
    pub fn fresh(year: i32, month: u32) -> (stats: Self)
        ensures
            stats.is_fresh(year, month),
    {
        let mut file = write_i64(year as i64);
        file.append("-");
        file.append(write_two_digits(month).as_str());
        file.append(".csv");
        ShardStats {
            file,
            year,
            month,
            rows: 0,
            bearish: 0,
            sideways: 0,
            bullish: 0,
            first_ts_micros: None,
            last_ts_micros: None,
        }
    }

    /// Counts a row.
    pub fn record_label(&mut self, label: u8, ts: i64)
        requires
            old(self).has_room(label),
        ensures
            final(self).same_shard(*old(self)),
            final(self).counts() == old(self).counts().plus(label),
            final(self).first_ts_micros == (match old(self).first_ts_micros {
                Some(t) => Some(t),
                None => Some(ts),
            }),
            final(self).last_ts_micros == Some(ts),
            final(self).rows == old(self).rows + 1,
            final(self).bearish == old(self).bearish + (if label == 0 {
                1int
            } else {
                0
            }),
            final(self).sideways == old(self).sideways + (if label == 1 {
                1int
            } else {
                0
            }),
            final(self).bullish == old(self).bullish + (if label == 2 {
                1int
            } else {
                0
            }),
    {
        if label == 0 {
            self.bearish = self.bearish + 1;
        } else if label == 1 {
            self.sideways = self.sideways + 1;
        } else if label == 2 {
            self.bullish = self.bullish + 1;
        }
        self.rows = self.rows + 1;
        match self.first_ts_micros {
            Some(_) => {},
            None => {
                self.first_ts_micros = Some(ts);
            },
        }
        self.last_ts_micros = Some(ts);
    }
}

// ── Lines ───────────────────────────────────────────────────────────────────

/// The header of a month's file.
pub fn shard_header() -> (line: String)
    ensures
        line@ == csv_fields(feature_name_list().push("label"@)).push('\n'),
{
    let names = feature_names();
    let mut fields: Vec<String> = Vec::new();
    let ghost listed = names@.map_values(|n: &'static str| n@);
    for i in 0..names.len()
        invariant
            listed == names@.map_values(|n: &'static str| n@),
            texts(fields@) == listed.take(i as int),
    {
        let ghost before = fields@;
        fields.push(names[i].to_owned());
        assert(texts(fields@) =~= texts(before).push(names[i as int]@));
        assert(listed.take(i + 1) =~= listed.take(i as int).push(listed[i as int]));
    }
    assert(listed.take(names@.len() as int) =~= listed);
    let ghost before = fields@;
    assert(texts(before).len() == before.len());
    fields.push("label".to_owned());
    assert(texts(fields@) =~= texts(before).push("label"@));
    write_record(&fields)
}

/// The line of a row: the texts of its features, and its label.
pub open spec fn row_line(features: Seq<String>, label: u8) -> Seq<char> {
    csv_fields(texts(features).push(integer_text(label as int))).push('\n')
}

/// Writes the line of a row.
fn write_line(features: &Vec<String>, label: u8) -> (line: String)
    requires
        features@.len() == N_FEATURES,
    ensures
        line@ == row_line(features@, label),
{
    let mut fields: Vec<String> = Vec::new();
    for i in 0..features.len()
        invariant
            texts(fields@) == texts(features@).take(i as int),
            fields@.len() == i,
    {
        let ghost before = fields@;
        fields.push(features[i].clone());
        assert(texts(fields@) =~= texts(before).push(features[i as int]@));
        assert(texts(features@).take(i + 1) =~= texts(features@).take(i as int).push(
            texts(features@)[i as int],
        ));
    }
    assert(texts(features@).take(features@.len() as int) =~= texts(features@));
    let ghost before = fields@;
    fields.push(write_i64(label as i64));
    assert(texts(fields@) =~= texts(before).push(integer_text(label as int)));
    write_record(&fields)
}

// ── Writing rows ────────────────────────────────────────────────────────────

/// What is to be done with a row: where `opened` is there, the file that is open
/// is to be closed first, and one of that name made anew with the header in it;
/// then the line is appended to the file.
pub struct RowWrite {
    pub opened: Option<String>,
    pub line: String,
    pub label: u8,
}

/// A row's timestamp lies outside the calendar.
#[derive(Clone, Copy, Debug, PartialEq, Eq, Structural)]
pub struct InvalidRowTime {
    pub ts_micros: i64,
}

/// Which month's file is open, and what is said of each month.
pub struct ShardWriter {
    current: Option<ShardStats>,
    closed: Vec<ShardStats>,
}

/// The state of a writer: what is said of the month whose file is open, and of
/// the months before.
pub struct WriterModel {
    pub current: Option<ShardStats>,
    pub closed: Seq<ShardStats>,
}

/// The counts of months together.
pub open spec fn total_counts(shards: Seq<ShardStats>) -> CountsModel
    decreases shards.len(),
{
    if shards.len() == 0 {
        CountsModel::none()
    } else {
        total_counts(shards.drop_last()).merged(shards.last().counts())
    }
}

impl WriterModel {
    /// The months with rows: those closed, and the one whose file is open
    /// where it has rows.
    pub open spec fn shards(self) -> Seq<ShardStats> {
        match self.current {
            Some(s) => if s.rows > 0 {
                self.closed.push(s)
            } else {
                self.closed
            },
            None => self.closed,
        }
    }

    /// Whether one more row of a label can be counted.
    pub open spec fn has_room(self, label: u8) -> bool {
        self.current matches Some(s) ==> s.has_room(label)
    }
}

impl View for ShardWriter {
    type V = WriterModel;

    closed spec fn view(&self) -> WriterModel {
        WriterModel { current: self.current, closed: self.closed@ }
    }
}

/// Whether a row is written to the shard of its month: into the open file where
/// it is that month's, else into a new one, the month before being closed.
pub open spec fn writes_row(
    before: WriterModel,
    after: WriterModel,
    ts: i64,
    label: u8,
    opened: Option<String>,
) -> bool {
    let key = month_of(ts as int);
    let stays = before.current matches Some(s) && s.key() == key;
    &&& after.current matches Some(s) && {
        &&& s.key() == key
        &&& s.last_ts_micros == Some(ts)
        &&& if stays {
            &&& s.same_shard(before.current->0)
            &&& s.counts() == before.current->0.counts().plus(label)
            &&& s.first_ts_micros == (match before.current->0.first_ts_micros {
                Some(t) => Some(t),
                None => Some(ts),
            })
        } else {
            &&& s.file@ == shard_name(key.0 as int, key.1 as nat)
            &&& s.counts() == CountsModel::none().plus(label)
            &&& s.first_ts_micros == Some(ts)
        }
    }
    &&& after.closed == (if stays {
        before.closed
    } else {
        before.shards()
    })
    &&& match opened {
        Some(name) => !stays && name@ == shard_name(key.0 as int, key.1 as nat),
        None => stays,
    }
}

impl ShardWriter {
    /// A writer that has no files open.
    pub fn new() -> (w: Self)
        ensures
            w@ == (WriterModel { current: None, closed: Seq::empty() }),
    {
        ShardWriter { current: None, closed: Vec::new() }
    }

    /// Tests whether one more row of a label can be counted.
    pub fn has_room(&self, label: u8) -> (r: bool)
        ensures
            r == self@.has_room(label),
    {
        match &self.current {
            Some(s) => s.rows < u64::MAX && (label != 0 || s.bearish < u64::MAX) && (label != 1
                || s.sideways < u64::MAX) && (label != 2 || s.bullish < u64::MAX),
            None => true,
        }
    }

    /// Closes the month whose file is open; it is kept where it has rows.
    fn close_current(&mut self)
        ensures
            final(self)@ == (WriterModel { current: None, closed: old(self)@.shards() }),
    {
        let mut current: Option<ShardStats> = None;
        std::mem::swap(&mut current, &mut self.current);
        match current {
            Some(s) => if s.rows > 0 {
                self.closed.push(s);
            },
            None => {},
        }
    }

    /// Turns to a month. Where the open file is another month's, or none is open,
    /// that month is closed and the name of the new file is handed out.
    fn roll(&mut self, year: i32, month: u32) -> (opened: Option<String>)
        ensures
            ({
                let stays = old(self)@.current matches Some(s) && s.key() == (year, month);
                if stays {
                    opened is None && final(self)@ == old(self)@
                } else {
                    &&& opened matches Some(name) && name@ == shard_name(year as int, month as nat)
                    &&& final(self)@.current matches Some(s) && s.is_fresh(year, month)
                    &&& final(self)@.closed == old(self)@.shards()
                }
            }),
    {
        let stays = match &self.current {
            Some(s) => s.year == year && s.month == month,
            None => false,
        };
        if stays {
            return None;
        }
        self.close_current();
        let stats = ShardStats::fresh(year, month);
        let name = stats.file.clone();
        self.current = Some(stats);
        Some(name)
    }

    /// Takes a labelled row in, its features as texts. The row is appended to the
    /// file of its month, and counted.
    pub fn write_row(&mut self, ts_micros: i64, features: &Vec<String>, label: u8) -> (r: Result<
        RowWrite,
        InvalidRowTime,
    >)
        requires
            features@.len() == N_FEATURES,
            old(self)@.has_room(label),
        ensures
            match r {
                Ok(w) => {
                    &&& placeable(ts_micros as int)
                    &&& writes_row(old(self)@, final(self)@, ts_micros, label, w.opened)
                    &&& w.line@ == row_line(features@, label)
                    &&& w.label == label
                },
                Err(e) => !placeable(ts_micros as int) && e.ts_micros == ts_micros && final(self)@
                    == old(self)@,
            },
    {
        let (year, month) = match place_month(ts_micros) {
            Some(key) => key,
            None => return Err(InvalidRowTime { ts_micros }),
        };
        let opened = self.roll(year, month);
        let line = write_line(features, label);
        let mut current: Option<ShardStats> = None;
        std::mem::swap(&mut current, &mut self.current);
        match current {
            Some(mut s) => {
                s.record_label(label, ts_micros);
                self.current = Some(s);
            },
            None => {},
        }
        Ok(RowWrite { opened, line, label })
    }

    /// Closes the last month, and tells what is said of each.
    pub fn finish(self) -> (shards: Vec<ShardStats>)
        ensures
            shards@ == self@.shards(),
    {
        let mut w = self;
        w.close_current();
        w.closed
    }
}

// ── Totals ──────────────────────────────────────────────────────────────────

/// The counts of all months together.
#[derive(Clone, Copy, Debug, PartialEq, Eq, Structural)]
pub struct ManifestTotal {
    pub rows: u64,
    pub bearish: u64,
    pub sideways: u64,
    pub bullish: u64,
}

impl View for ManifestTotal {
    type V = CountsModel;

    open spec fn view(&self) -> CountsModel {
        CountsModel {
            rows: self.rows as int,
            bearish: self.bearish as int,
            sideways: self.sideways as int,
            bullish: self.bullish as int,
        }
    }
}

/// Whether counts can be held in 64 bits.
pub open spec fn counts_fit(c: CountsModel) -> bool {
    c.rows <= u64::MAX && c.bearish <= u64::MAX && c.sideways <= u64::MAX && c.bullish <= u64::MAX
}

/// The counts of some of the months are never larger than those of all.
proof fn lemma_totals_grow(shards: Seq<ShardStats>, k: int)
    requires
        0 <= k <= shards.len(),
    ensures
        ({
            let (some, all) = (total_counts(shards.take(k)), total_counts(shards));
            &&& 0 <= some.rows <= all.rows
            &&& 0 <= some.bearish <= all.bearish
            &&& 0 <= some.sideways <= all.sideways
            &&& 0 <= some.bullish <= all.bullish
        }),
    decreases shards.len(),
{
    if k < shards.len() {
        assert(shards.drop_last().take(k) =~= shards.take(k));
        lemma_totals_grow(shards.drop_last(), k);
    } else {
        assert(shards.take(k) =~= shards);
        if k > 0 {
            lemma_totals_grow(shards.drop_last(), k - 1);
        }
    }
}

/// Adds up the counts of all months.
pub fn sum_counts(shards: &Vec<ShardStats>) -> (total: ManifestTotal)
    requires
        counts_fit(total_counts(shards@)),
    ensures
        total@ == total_counts(shards@),
{
    let mut total = ManifestTotal { rows: 0, bearish: 0, sideways: 0, bullish: 0 };
    assert(shards@.take(0) =~= Seq::<ShardStats>::empty());
    for i in 0..shards.len()
        invariant
            counts_fit(total_counts(shards@)),
            total@ == total_counts(shards@.take(i as int)),
    {
        proof {
            lemma_totals_grow(shards@, i + 1);
            assert(shards@.take(i + 1).drop_last() =~= shards@.take(i as int));
        }
        let s = &shards[i];
        total = ManifestTotal {
            rows: total.rows + s.rows,
            bearish: total.bearish + s.bearish,
            sideways: total.sideways + s.sideways,
            bullish: total.bullish + s.bullish,
        };
    }
    assert(shards@.take(shards@.len() as int) =~= shards@);
    total
}

// ── Laws ────────────────────────────────────────────────────────────────────

/// A row that is written is counted once, under its label, and nothing else is.
pub proof fn law_a_written_row_is_counted_once(
    before: WriterModel,
    after: WriterModel,
    ts: i64,
    label: u8,
    opened: Option<String>,
)
    requires
        before.current matches Some(s) ==> s.rows > 0,
        writes_row(before, after, ts, label, opened),
    ensures
        after.current matches Some(s) && s.rows > 0,
        total_counts(after.shards()) == total_counts(before.shards()).plus(label),
{
    let s = after.current->0;
    assert(s.rows == s.counts().rows);
    assert(after.shards() == after.closed.push(s));
    assert(after.shards().drop_last() =~= after.closed);
    if before.current is Some && before.current->0.key() == month_of(ts as int) {
        assert(before.shards().drop_last() =~= before.closed);
    }
}

/// Where every row has one of the three labels, the counts of the labels add up
/// to the count of rows, month by month and in all.
pub proof fn law_labels_add_up_to_rows(shards: Seq<ShardStats>)
    requires
        forall|i: int| 0 <= i < shards.len() ==> (#[trigger] shards[i]).counts().add_up(),
    ensures
        total_counts(shards).add_up(),
    decreases shards.len(),
{
    if shards.len() > 0 {
        let head = shards.drop_last();
        assert forall|i: int| 0 <= i < head.len() implies (#[trigger] head[i]).counts().add_up() by {
            assert(head[i] == shards[i]);
        }
        law_labels_add_up_to_rows(head);
        assert(shards.last() == shards[shards.len() - 1]);
    }
}

/// Whether in every month the counts of the labels add up to the count of rows.
pub open spec fn all_add_up(m: WriterModel) -> bool {
    &&& forall|i: int| 0 <= i < m.closed.len() ==> (#[trigger] m.closed[i]).counts().add_up()
    &&& m.current matches Some(s) ==> s.counts().add_up()
}

/// Writing a row with one of the three labels keeps the counts adding up in
/// every month.
pub proof fn law_writing_keeps_counts_adding_up(
    before: WriterModel,
    after: WriterModel,
    ts: i64,
    label: u8,
    opened: Option<String>,
)
    requires
        all_add_up(before),
        label <= 2,
        writes_row(before, after, ts, label, opened),
    ensures
        all_add_up(after),
{
}

/// Whether the months stand in order, each once, the open one behind the rest,
/// and the last row of the open one lies in it.
pub open spec fn months_in_order(m: WriterModel) -> bool {
    &&& forall|i: int, j: int|
        0 <= i < j < m.closed.len() ==> earlier_month(
            (#[trigger] m.closed[i]).key(),
            (#[trigger] m.closed[j]).key(),
        )
    &&& m.current matches Some(s) ==> {
        &&& s.rows > 0
        &&& s.last_ts_micros matches Some(t) && placeable(t as int) && s.key() == month_of(t as int)
        &&& forall|i: int|
            0 <= i < m.closed.len() ==> earlier_month((#[trigger] m.closed[i]).key(), s.key())
    }
    &&& m.current is None ==> m.closed.len() == 0
}

/// Rows that come in the order of time are written to one file per month,
/// the months in order: no month's file is opened a second time.
pub proof fn law_each_month_is_opened_once(
    before: WriterModel,
    after: WriterModel,
    ts: i64,
    label: u8,
    opened: Option<String>,
)
    requires
        months_in_order(before),
        placeable(ts as int),
        before.current matches Some(s) ==> s.last_ts_micros matches Some(t) && t <= ts,
        writes_row(before, after, ts, label, opened),
    ensures
        months_in_order(after),
        after.current matches Some(s) && s.last_ts_micros == Some(ts),
{
    let s = after.current->0;
    assert(s.rows == s.counts().rows);
    match before.current {
        Some(b) => {
            let t = b.last_ts_micros->0;
            lemma_placed(t as int);
            lemma_placed(ts as int);
            law_months_follow_time(t as int, ts as int, b.key(), s.key());
        },
        None => {},
    }
}

/// A row goes to the month that its time lies in: the open file where it is that
/// month's, and else a new one of the month's name, the files before being kept as
/// they were. It is counted once there, under its label, and its time is that of
/// the month's last row, and of the first where there was none.
pub proof fn law_rows_go_to_the_file_of_their_month(
    before: WriterModel,
    after: WriterModel,
    ts: i64,
    label: u8,
    opened: Option<String>,
)
    requires
        writes_row(before, after, ts, label, opened),
        placeable(ts as int),
    ensures
        after.current matches Some(s) && {
            let same = before.current matches Some(b) && in_month(
                ts as int,
                b.year as int,
                b.month as int,
            );
            let b = before.current->0;
            let one = |wanted: u8|
                if label == wanted {
                    1int
                } else {
                    0
                };
            &&& in_month(ts as int, s.year as int, s.month as int)
            &&& s.last_ts_micros == Some(ts)
            &&& opened is Some <==> !same
            &&& same ==> {
                &&& s.file@ == b.file@
                &&& s.rows == b.rows + 1
                &&& s.bearish == b.bearish + one(0)
                &&& s.sideways == b.sideways + one(1)
                &&& s.bullish == b.bullish + one(2)
                &&& b.first_ts_micros is Some ==> s.first_ts_micros == b.first_ts_micros
                &&& b.first_ts_micros is None ==> s.first_ts_micros == Some(ts)
                &&& after.closed == before.closed
            }
            &&& !same ==> {
                &&& s.file@ == integer_text(s.year as int) + "-"@ + two_digit_text(s.month as nat)
                    + ".csv"@
                &&& opened->0@ == s.file@
                &&& s.rows == 1
                &&& s.bearish == one(0)
                &&& s.sideways == one(1)
                &&& s.bullish == one(2)
                &&& s.first_ts_micros == Some(ts)
                &&& before.current is None ==> after.closed == before.closed
                &&& before.current is Some && b.rows > 0 ==> after.closed == before.closed.push(b)
            }
        },
{
    lemma_placed(ts as int);
    let s = after.current->0;
    assert(s.counts().rows == s.rows && s.counts().bearish == s.bearish);
    assert(s.counts().sideways == s.sideways && s.counts().bullish == s.bullish);
    if let Some(b) = before.current {
        assert(b.counts().rows == b.rows && b.counts().bearish == b.bearish);
        assert(b.counts().sideways == b.sideways && b.counts().bullish == b.bullish);
        if in_month(ts as int, b.year as int, b.month as int) {
            lemma_month_of(ts as int, b.key());
        }
    }
}

/// What is told at the end is every month with rows, the open one behind the rest.
pub proof fn law_every_month_with_rows_is_told(m: WriterModel)
    ensures
        m.current is None ==> m.shards() == m.closed,
        m.current matches Some(s) ==> (s.rows > 0 ==> m.shards() == m.closed.push(s)) && (s.rows == 0
            ==> m.shards() == m.closed),
{
}

/// The counts of all months are added up one by one, rows to rows and each label to
/// its own.
pub proof fn law_totals_are_sums(shards: Seq<ShardStats>, s: ShardStats)
    ensures
        ({
            let (none, some, all) = (
                total_counts(Seq::empty()),
                total_counts(shards),
                total_counts(shards.push(s)),
            );
            &&& none.rows == 0 && none.bearish == 0 && none.sideways == 0 && none.bullish == 0
            &&& all.rows == some.rows + s.rows
            &&& all.bearish == some.bearish + s.bearish
            &&& all.sideways == some.sideways + s.sideways
            &&& all.bullish == some.bullish + s.bullish
        }),
{
    assert(shards.push(s).drop_last() =~= shards);
}

/// A total holds its counts as they are.
pub proof fn law_totals_hold_their_counts(t: ManifestTotal)
    ensures
        t@.rows == t.rows,
        t@.bearish == t.bearish,
        t@.sideways == t.sideways,
        t@.bullish == t.bullish,
{
}

/// The line of a row is the texts of its features in their order and then its
/// label, as the header names them.
pub proof fn law_a_line_is_the_features_and_the_label(features: Seq<String>, label: u8)
    ensures
        exists|fields: Seq<Seq<char>>|
            {
                &&& row_line(features, label) == #[trigger] csv_fields(fields).push('\n')
                &&& fields.len() == features.len() + 1
                &&& forall|i: int|
                    0 <= i < features.len() ==> #[trigger] fields[i] == features[i]@
                &&& fields.last() == integer_text(label as int)
            },
{
    let fields = texts(features).push(integer_text(label as int));
    assert(row_line(features, label) == csv_fields(fields).push('\n'));
    assert forall|i: int| 0 <= i < features.len() implies #[trigger] fields[i] == features[i]@ by {
        assert(texts(features)[i] == features[i]@);
    }
}

/// A row can be counted exactly where the count of rows and the count of its label
/// can still grow in 64 bits; where no file is open it always can.
pub proof fn law_room_ends_where_the_counts_of_a_label_do(m: WriterModel, label: u8)
    ensures
        m.current is None ==> m.has_room(label),
        m.current matches Some(s) ==> {
            let most = 0xFFFF_FFFF_FFFF_FFFFu64;
            m.has_room(label) <==> s.rows < most && (label == 0 ==> s.bearish < most) && (label == 1
                ==> s.sideways < most) && (label == 2 ==> s.bullish < most)
        },
{
}

} // verus!
