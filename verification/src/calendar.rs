//! Calendar months in UTC, and the instants at which they begin.
//!
//! Timestamps are microseconds since the UNIX epoch. Years follow the
//! proleptic Gregorian calendar, with a year 0 before year 1.

use chrono::{Datelike, TimeZone, Utc};
use vstd::prelude::*;

use crate::text::{decimal, two_digit_text};

verus! {

/// Microseconds in a day.
pub const DAY_MICROS: i64 = 86_400_000_000;

/// The first year that a timestamp can be placed in.
pub const MIN_YEAR: i32 = -262_143;

/// The last year that a timestamp can be placed in.
pub const MAX_YEAR: i32 = 262_142;

/// The first instant of [`MIN_YEAR`].
pub const MIN_MICROS: i64 = -8_334_601_228_800_000_000;

// ── The calendar ────────────────────────────────────────────────────────────

/// Whether a year has a 29th of February.
pub open spec fn is_leap(year: int) -> bool {
    year % 4 == 0 && (year % 100 != 0 || year % 400 == 0)
}

/// Days from the first day of year 1 to the first day of the given year.
pub open spec fn days_before_year(year: int) -> int {
    365 * (year - 1) + (year - 1) / 4 - (year - 1) / 100 + (year - 1) / 400
}

/// The number of days in a month.
pub open spec fn days_in_month(year: int, month: int) -> int {
    if month == 2 {
        if is_leap(year) {
            29
        } else {
            28
        }
    } else if month == 4 || month == 6 || month == 9 || month == 11 {
        30
    } else {
        31
    }
}

/// Days from the first day of a year to the first day of one of its months.
pub open spec fn days_before_month(year: int, month: int) -> int
    decreases month,
{
    if month <= 1 {
        0
    } else {
        days_before_month(year, month - 1) + days_in_month(year, month - 1)
    }
}

/// The first instant of a month.
pub open spec fn month_start(year: int, month: int) -> int {
    (days_before_year(year) + days_before_month(year, month) - days_before_year(1970))
        * DAY_MICROS
}

/// The year of the month that follows.
pub open spec fn next_year(year: int, month: int) -> int {
    if month == 12 {
        year + 1
    } else {
        year
    }
}

/// The number of the month that follows.
pub open spec fn next_month(month: int) -> int {
    if month == 12 {
        1
    } else {
        month + 1
    }
}

/// The first instant after a month.
pub open spec fn month_end(year: int, month: int) -> int {
    month_start(next_year(year, month), next_month(month))
}

/// Whether a timestamp lies in a month.
pub open spec fn in_month(ts: int, year: int, month: int) -> bool {
    1 <= month <= 12 && month_start(year, month) <= ts < month_end(year, month)
}

/// Whether a timestamp lies in the years that dates are kept for.
pub open spec fn placeable(ts: int) -> bool {
    month_start(MIN_YEAR as int, 1) <= ts < month_start(MAX_YEAR + 1, 1)
}

/// Whether a day exists, in the years that dates are kept for.
pub open spec fn is_date(year: int, month: int, day: int) -> bool {
    MIN_YEAR <= year <= MAX_YEAR && 1 <= month <= 12 && 1 <= day <= days_in_month(year, month)
}

/// Whether one month comes before another.
pub open spec fn earlier_month(a: (i32, u32), b: (i32, u32)) -> bool {
    a.0 < b.0 || (a.0 == b.0 && a.1 < b.1)
}

/// Whether months stand in ascending order, each once.
pub open spec fn keys_in_order(keys: Seq<(i32, u32)>) -> bool {
    forall|i: int, j: int|
        0 <= i < j < keys.len() ==> earlier_month(#[trigger] keys[i], #[trigger] keys[j])
}

/// Months in order stay in order where another is put behind those that it does
/// not come before.
pub proof fn lemma_month_in_its_place(keys: Seq<(i32, u32)>, i: int, key: (i32, u32))
    requires
        keys_in_order(keys),
        0 <= i <= keys.len(),
        i > 0 ==> keys[i - 1] != key && !earlier_month(key, keys[i - 1]),
        forall|j: int| i <= j < keys.len() ==> earlier_month(key, #[trigger] keys[j]),
    ensures
        keys_in_order(keys.insert(i, key)),
        forall|j: int| 0 <= j < keys.len() ==> #[trigger] keys[j] != key,
{
    let after = keys.insert(i, key);
    assert forall|j: int| 0 <= j < i implies earlier_month(#[trigger] keys[j], key) by {
        if j < i - 1 {
            assert(earlier_month(keys[j], keys[i - 1]));
        }
    }
    assert forall|a: int, b: int| 0 <= a < b < after.len() implies earlier_month(
        #[trigger] after[a],
        #[trigger] after[b],
    ) by {
        let x = if a < i {
            keys[a]
        } else if a == i {
            key
        } else {
            keys[a - 1]
        };
        let y = if b < i {
            keys[b]
        } else if b == i {
            key
        } else {
            keys[b - 1]
        };
        assert(after[a] == x && after[b] == y);
    }
}

/// The month, as year and number, that a timestamp lies in.
pub open spec fn month_of(ts: int) -> (i32, u32) {
    choose|k: (i32, u32)| #[trigger] in_month(ts, k.0 as int, k.1 as int)
}

// ── Dates from the chrono crate ─────────────────────────────────────────────

/// Places a timestamp in its month, through `chrono::TimeZone::timestamp_micros`
/// for `chrono::Utc`, `year` and `month`. It is placed exactly when it lies in
/// the years that chrono keeps dates for, and then the year and the month are
/// those of the proleptic Gregorian calendar.
#[verifier::external_body]
pub(crate) fn calendar_month(ts_micros: i64) -> (r: Option<(i32, u32)>)
    ensures
        r is Some <==> placeable(ts_micros as int),
        r matches Some(k) ==> in_month(ts_micros as int, k.0 as int, k.1 as int),
{
    Utc.timestamp_micros(ts_micros).single().map(|dt| (dt.year(), dt.month()))
}

/// The first instant of a day, through `chrono::TimeZone::with_ymd_and_hms` for
/// `chrono::Utc` and `timestamp_micros`. There is one exactly where the year
/// is in chrono's range and the day exists in it.
#[verifier::external_body]
pub(crate) fn midnight(year: i32, month: u32, day: u32) -> (r: Option<i64>)
    ensures
        r is Some <==> is_date(year as int, month as int, day as int),
        r matches Some(t) ==> t == month_start(year as int, month as int) + (day - 1) * DAY_MICROS,
{
    Utc.with_ymd_and_hms(year, month, day, 0, 0, 0).single().map(|dt| dt.timestamp_micros())
}

/// A number in decimal, filled up with zeros on the left to four digits.
pub open spec fn four_digit_text(n: nat) -> Seq<char> {
    if decimal(n).len() >= 4 {
        decimal(n)
    } else {
        Seq::new((4 - decimal(n).len()) as nat, |i: int| '0') + decimal(n)
    }
}

/// A year with at least four digits, signed where it is not one of 0 to 9999.
pub open spec fn year_text(year: int) -> Seq<char> {
    if 0 <= year < 10_000 {
        four_digit_text(year as nat)
    } else if year < 0 {
        seq!['-'] + four_digit_text((-year) as nat)
    } else {
        seq!['+'] + four_digit_text(year as nat)
    }
}

/// A timestamp as `YYYY-MM-DDThh:mm:ssZ`, without the fraction of a second.
pub open spec fn utc_text(ts: int) -> Seq<char> {
    let (year, month) = month_of(ts);
    let seconds = (ts - month_start(year as int, month as int)) / 1_000_000;
    year_text(year as int) + seq!['-'] + two_digit_text(month as nat) + seq!['-'] + two_digit_text(
        (seconds / 86_400 + 1) as nat,
    ) + seq!['T'] + two_digit_text(((seconds / 3_600) % 24) as nat) + seq![':'] + two_digit_text(
        ((seconds / 60) % 60) as nat,
    ) + seq![':'] + two_digit_text((seconds % 60) as nat) + seq!['Z']
}

/// Writes a timestamp out, through `chrono::TimeZone::timestamp_micros` for
/// `chrono::Utc` and `DateTime::format` with `%Y-%m-%dT%H:%M:%SZ`. There is a
/// text exactly for a timestamp in chrono's range.
#[verifier::external_body]
pub(crate) fn write_utc(ts_micros: i64) -> (r: Option<String>)
    ensures
        r is Some <==> placeable(ts_micros as int),
        r matches Some(s) ==> s@ == utc_text(ts_micros as int),
{
    Utc.timestamp_micros(ts_micros).single().map(
        |dt| dt.format("%Y-%m-%dT%H:%M:%SZ").to_string(),
    )
}

// ── Months in order ─────────────────────────────────────────────────────────

proof fn lemma_year_length(year: int)
    ensures
        days_before_year(year + 1) == days_before_year(year) + (if is_leap(year) {
            366int
        } else {
            365int
        }),
{
}

proof fn lemma_years_increase(a: int, b: int)
    requires
        a < b,
    ensures
        days_before_year(a + 1) <= days_before_year(b),
    decreases b - a,
{
    if a + 1 < b {
        lemma_years_increase(a, b - 1);
        lemma_year_length(b - 1);
    }
}

proof fn lemma_month_table(year: int)
    ensures
        days_before_month(year, 1) == 0,
        days_before_month(year, 2) == 31,
        days_before_month(year, 3) == 31 + days_in_month(year, 2),
        days_before_month(year, 4) == 62 + days_in_month(year, 2),
        days_before_month(year, 5) == 92 + days_in_month(year, 2),
        days_before_month(year, 6) == 123 + days_in_month(year, 2),
        days_before_month(year, 7) == 153 + days_in_month(year, 2),
        days_before_month(year, 8) == 184 + days_in_month(year, 2),
        days_before_month(year, 9) == 215 + days_in_month(year, 2),
        days_before_month(year, 10) == 245 + days_in_month(year, 2),
        days_before_month(year, 11) == 276 + days_in_month(year, 2),
        days_before_month(year, 12) == 306 + days_in_month(year, 2),
{
    reveal_with_fuel(days_before_month, 13);
}

/// A month ends where its days are over, and that is where the next begins.
pub proof fn lemma_month_length(year: int, month: int)
    requires
        1 <= month <= 12,
    ensures
        month_end(year, month) == month_start(year, month) + days_in_month(year, month)
            * DAY_MICROS,
{
    lemma_month_table(year);
    lemma_month_table(year + 1);
    lemma_year_length(year);
    assert(days_before_year(next_year(year, month)) + days_before_month(
        next_year(year, month),
        next_month(month),
    ) == days_before_year(year) + days_before_month(year, month) + days_in_month(year, month));
}

/// A month is over before any later month begins.
pub proof fn lemma_months_increase(y1: int, m1: int, y2: int, m2: int)
    requires
        1 <= m1 <= 12,
        1 <= m2 <= 12,
        y1 < y2 || (y1 == y2 && m1 < m2),
    ensures
        month_end(y1, m1) <= month_start(y2, m2),
{
    lemma_month_length(y1, m1);
    lemma_month_table(y1);
    lemma_month_table(y2);
    lemma_year_length(y1);
    let d1 = days_before_year(y1) + days_before_month(y1, m1) + days_in_month(y1, m1);
    let d2 = days_before_year(y2) + days_before_month(y2, m2);
    if y1 < y2 {
        lemma_years_increase(y1, y2);
    }
    assert(d1 <= d2);
}

/// A timestamp lies in one month only.
pub proof fn lemma_one_month(ts: int, y1: int, m1: int, y2: int, m2: int)
    requires
        in_month(ts, y1, m1),
        in_month(ts, y2, m2),
    ensures
        y1 == y2,
        m1 == m2,
{
    if y1 < y2 || (y1 == y2 && m1 < m2) {
        lemma_months_increase(y1, m1, y2, m2);
    } else if y2 < y1 || (y1 == y2 && m2 < m1) {
        lemma_months_increase(y2, m2, y1, m1);
    }
}

/// What lies in a month has that month as its own.
pub proof fn lemma_month_of(ts: int, key: (i32, u32))
    requires
        in_month(ts, key.0 as int, key.1 as int),
    ensures
        month_of(ts) == key,
{
    let k = month_of(ts);
    lemma_one_month(ts, key.0 as int, key.1 as int, k.0 as int, k.1 as int);
}

proof fn lemma_find_year(day: int, year: int) -> (found: int)
    requires
        days_before_year(year) <= day,
    ensures
        days_before_year(found) <= day < days_before_year(found + 1),
    decreases day - days_before_year(year),
{
    lemma_year_length(year);
    if day < days_before_year(year + 1) {
        year
    } else {
        lemma_find_year(day, year + 1)
    }
}

/// Every timestamp lies in exactly one calendar month.
pub proof fn law_every_instant_has_one_month(ts: int)
    ensures
        exists|year: int, month: int| #[trigger] in_month(ts, year, month),
        forall|y1: int, m1: int, y2: int, m2: int|
            #![trigger in_month(ts, y1, m1), in_month(ts, y2, m2)]
            in_month(ts, y1, m1) && in_month(ts, y2, m2) ==> y1 == y2 && m1 == m2,
{
    let day = ts / (DAY_MICROS as int) + days_before_year(1970);
    let low = if day >= 0 {
        0
    } else {
        day
    };
    assert(days_before_year(low) <= day);
    let year = lemma_find_year(day, low);
    lemma_year_length(year);
    lemma_month_table(year);
    let rest = day - days_before_year(year);
    let month = if rest < days_before_month(year, 2) {
        1int
    } else if rest < days_before_month(year, 3) {
        2int
    } else if rest < days_before_month(year, 4) {
        3int
    } else if rest < days_before_month(year, 5) {
        4int
    } else if rest < days_before_month(year, 6) {
        5int
    } else if rest < days_before_month(year, 7) {
        6int
    } else if rest < days_before_month(year, 8) {
        7int
    } else if rest < days_before_month(year, 9) {
        8int
    } else if rest < days_before_month(year, 10) {
        9int
    } else if rest < days_before_month(year, 11) {
        10int
    } else if rest < days_before_month(year, 12) {
        11int
    } else {
        12int
    };
    lemma_month_length(year, month);
    assert(in_month(ts, year, month));
    assert forall|y1: int, m1: int, y2: int, m2: int|
        #![trigger in_month(ts, y1, m1), in_month(ts, y2, m2)]
        in_month(ts, y1, m1) && in_month(ts, y2, m2) implies y1 == y2 && m1 == m2 by {
        lemma_one_month(ts, y1, m1, y2, m2);
    }
}

/// A timestamp that can be placed lies in its month.
pub proof fn lemma_placed(ts: int)
    requires
        placeable(ts),
    ensures
        in_month(ts, month_of(ts).0 as int, month_of(ts).1 as int),
{
    law_every_instant_has_one_month(ts);
    let (year, month) = choose|year: int, month: int| #[trigger] in_month(ts, year, month);
    if year < MIN_YEAR {
        lemma_months_increase(year, month, MIN_YEAR as int, 1);
    }
    if year > MAX_YEAR {
        if year > MAX_YEAR + 1 || month > 1 {
            lemma_months_increase(MAX_YEAR + 1, 1, year, month);
        }
        lemma_month_length(year, month);
    }
    let key = (year as i32, month as u32);
    assert(in_month(ts, key.0 as int, key.1 as int));
}

/// Timestamps in ascending order lie in months in ascending order.
pub proof fn law_months_follow_time(t1: int, t2: int, k1: (i32, u32), k2: (i32, u32))
    requires
        t1 <= t2,
        in_month(t1, k1.0 as int, k1.1 as int),
        in_month(t2, k2.0 as int, k2.1 as int),
    ensures
        k1 == k2 || earlier_month(k1, k2),
{
    if earlier_month(k2, k1) {
        lemma_months_increase(k2.0 as int, k2.1 as int, k1.0 as int, k1.1 as int);
    }
}

/// The first instant of the first year that dates are kept for.
pub proof fn lemma_min_micros()
    ensures
        month_start(MIN_YEAR as int, 1) == MIN_MICROS,
        placeable(MIN_MICROS as int),
        in_month(MIN_MICROS as int, MIN_YEAR as int, 1),
        month_of(MIN_MICROS as int) == (MIN_YEAR, 1u32),
{
    lemma_month_table(MIN_YEAR as int);
    lemma_month_table(MAX_YEAR + 1);
    lemma_month_length(MIN_YEAR as int, 1);
    lemma_month_of(MIN_MICROS as int, (MIN_YEAR, 1u32));
}

/// The months of 2017 at which collection starts.
pub proof fn lemma_origin()
    ensures
        month_start(2017, 1) == 1_483_228_800_000_000,
        month_start(2017, 8) == 1_501_545_600_000_000,
{
    lemma_month_table(2017);
}

/// A timestamp, or the earliest one where it lies outside the years that dates
/// are kept for.
pub open spec fn dated(ts: int) -> int {
    if placeable(ts) {
        ts
    } else {
        MIN_MICROS as int
    }
}

/// The month of a timestamp, where it can be placed in one.
pub fn place_month(ts_micros: i64) -> (r: Option<(i32, u32)>)
    ensures
        match r {
            Some(k) => placeable(ts_micros as int) && k == month_of(ts_micros as int) && in_month(
                ts_micros as int,
                k.0 as int,
                k.1 as int,
            ),
            None => !placeable(ts_micros as int),
        },
{
    let r = calendar_month(ts_micros);
    proof {
        if let Some(k) = r {
            lemma_month_of(ts_micros as int, k);
        }
    }
    r
}

/// The month of a timestamp, or the earliest month of all where it can be
/// placed in none.
pub fn dated_month(ts_micros: i64) -> (k: (i32, u32))
    ensures
        k == month_of(dated(ts_micros as int)),
        in_month(dated(ts_micros as int), k.0 as int, k.1 as int),
{
    match place_month(ts_micros) {
        Some(k) => k,
        None => {
            proof {
                lemma_min_micros();
            }
            (MIN_YEAR, 1)
        },
    }
}

// ── Stepping through months ─────────────────────────────────────────────────

/// Moves `(year, month)` on by one calendar month.
pub fn advance_month(year: &mut i32, month: &mut u32)
    requires
        1 <= *old(month) <= 12,
        *old(month) == 12 ==> *old(year) < i32::MAX,
    ensures
        *final(year) == next_year(*old(year) as int, *old(month) as int),
        *final(month) == next_month(*old(month) as int),
{
    if *month == 12 {
        *year = *year + 1;
        *month = 1;
    } else {
        *month = *month + 1;
    }
}

/// Stepping on by one month leads to the month that begins where this one
/// ends, and to no earlier one.
pub proof fn law_advancing_leads_to_the_next_month(year: int, month: int)
    requires
        1 <= month <= 12,
    ensures
        1 <= next_month(month) <= 12,
        month_start(next_year(year, month), next_month(month)) == month_end(year, month),
        month_start(year, month) < month_end(year, month),
{
    lemma_month_length(year, month);
}

/// Months are ordered by their year, and within a year by their number; behind
/// December comes January of the next year.
pub proof fn law_months_are_counted_to_twelve(a: (i32, u32), b: (i32, u32), year: int, month: int)
    ensures
        earlier_month(a, b) <==> a.0 < b.0 || (a.0 == b.0 && a.1 < b.1),
        month == 12 ==> next_year(year, month) == year + 1 && next_month(month) == 1,
        month != 12 ==> next_year(year, month) == year && next_month(month) == month + 1,
{
}

/// A month begins where its instants begin and lasts for its days: 28 or 29 in
/// February, 30 in April, June, September and November, and 31 in the rest. The
/// epoch is the start of 1970.
pub proof fn law_months_have_their_days(year: int, month: int)
    requires
        1 <= month <= 12,
    ensures
        month_start(1970, 1) == 0,
        ({
            let leap = year % 4 == 0 && (year % 100 != 0 || year % 400 == 0);
            let days = if month == 2 {
                if leap {
                    29int
                } else {
                    28
                }
            } else if month == 4 || month == 6 || month == 9 || month == 11 {
                30
            } else {
                31
            };
            let (y, m) = if month == 12 {
                (year + 1, 1int)
            } else {
                (year, month + 1)
            };
            month_start(y, m) == month_start(year, month) + days * 86_400_000_000
        }),
        forall|ts: int| #[trigger]
            in_month(ts, year, month) <==> month_start(year, month) <= ts < month_start(
                if month == 12 {
                    year + 1
                } else {
                    year
                },
                if month == 12 {
                    1
                } else {
                    month + 1
                },
            ),
{
    lemma_month_length(year, month);
    lemma_month_table(1970);
}

/// An instant can be placed exactly where it lies in the years from -262143 to
/// 262142; any other counts as the first instant of them.
pub proof fn law_the_calendar_has_a_first_and_a_last_year(ts: int)
    ensures
        placeable(ts) <==> month_start(-262_143, 1) <= ts < month_start(262_143, 1),
        placeable(ts) ==> dated(ts) == ts,
        !placeable(ts) ==> dated(ts) == month_start(-262_143, 1),
{
    lemma_min_micros();
}

/// An instant is written out by its year, month, day, hour, minute and second: the
/// text of the instant so many days, hours, minutes and seconds into a month tells
/// them all, and what is left of the second plays no part.
pub proof fn law_instants_are_written_by_their_parts(
    key: (i32, u32),
    day: int,
    hour: int,
    minute: int,
    second: int,
    micros: int,
)
    requires
        1 <= key.1 <= 12,
        1 <= day <= days_in_month(key.0 as int, key.1 as int),
        0 <= hour < 24,
        0 <= minute < 60,
        0 <= second < 60,
        0 <= micros < 1_000_000,
    ensures
        ({
            let start = month_start(key.0 as int, key.1 as int);
            let secs = (day - 1) * 86_400 + hour * 3_600 + minute * 60 + second;
            utc_text(start + secs * 1_000_000 + micros) == year_text(key.0 as int) + seq!['-']
                + two_digit_text(key.1 as nat) + seq!['-'] + two_digit_text(day as nat) + seq!['T']
                + two_digit_text(hour as nat) + seq![':'] + two_digit_text(minute as nat)
                + seq![':'] + two_digit_text(second as nat) + seq!['Z']
        }),
{
    let (year, month) = (key.0 as int, key.1 as int);
    let secs = (day - 1) * 86_400 + hour * 3_600 + minute * 60 + second;
    let ts = month_start(year, month) + secs * 1_000_000 + micros;
    lemma_month_length(year, month);
    assert(in_month(ts, year, month));
    lemma_month_of(ts, key);
    assert((secs * 1_000_000 + micros) / 1_000_000 == secs);
    assert(secs / 86_400 + 1 == day);
    assert(secs / 3_600 == (day - 1) * 24 + hour);
    assert((secs / 3_600) % 24 == hour);
    assert(secs / 60 == (day - 1) * 1_440 + hour * 60 + minute);
    assert((secs / 60) % 60 == minute);
    assert(secs % 60 == second);
}

/// A year has four digits or more: years before year 0 have a minus sign, those
/// behind 9999 a plus sign.
pub proof fn law_years_have_four_digits(year: int)
    ensures
        1_000 <= year < 10_000 ==> year_text(year) == decimal(year as nat),
        year >= 10_000 ==> year_text(year) == seq!['+'] + decimal(year as nat),
        year <= -1_000 ==> year_text(year) == seq!['-'] + decimal((-year) as nat),
{
    reveal_with_fuel(decimal, 5);
}

} // verus!
