//! The mark of how far an exchange's history has been stored.
//!
//! A cursor holds the timestamp of the last row that was written for an
//! exchange, so that a later run takes up behind it. It is kept at
//! `{data_root}/{exchange}/cursor.json`.

use vstd::prelude::*;

use crate::calendar::{dated, lemma_min_micros, utc_text, write_utc, MIN_MICROS};
use crate::text::{join_path, joined};

verus! {

/// How far an exchange's history has been stored.
#[derive(Debug)]
pub struct Cursor {
    /// Timestamp of the last stored row; nothing where no row is stored yet.
    pub last_ts_micros: Option<i64>,
    /// The same instant for people to read. It is never read back.
    pub last_ts_human: Option<String>,
    /// Rows written over all runs.
    pub rows_written: u64,
}

impl Clone for Cursor {
    fn clone(&self) -> (c: Self)
        ensures
            c == *self,
    {
        let human: Option<String> = match &self.last_ts_human {
            Some(s) => Some(s.clone()),
            None => None,
        };
        Cursor {
            last_ts_micros: self.last_ts_micros,
            last_ts_human: human,
            rows_written: self.rows_written,
        }
    }
}

impl Cursor {
    /// The cursor of an exchange that has no rows yet.
    pub fn blank() -> (c: Self)
        ensures
            c.last_ts_micros is None,
            c.last_ts_human is None,
            c.rows_written == 0,
    {
        Cursor { last_ts_micros: None, last_ts_human: None, rows_written: 0 }
    }

    /// Moves the cursor to the last row of a batch that was written, and counts
    /// the batch's rows.
    pub fn advance(&mut self, last_ts_micros: i64, rows: u64)
        requires
            old(self).rows_written + rows <= u64::MAX,
        ensures
            final(self).last_ts_micros == Some(last_ts_micros),
            final(self).last_ts_human matches Some(s) && s@ == utc_text(
                dated(last_ts_micros as int),
            ),
            final(self).rows_written == old(self).rows_written + rows,
    {
        proof {
            lemma_min_micros();
        }
        let human = match write_utc(last_ts_micros) {
            Some(s) => Some(s),
            None => write_utc(MIN_MICROS),
        };
        self.last_ts_micros = Some(last_ts_micros);
        self.last_ts_human = human;
        self.rows_written = self.rows_written + rows;
    }

    /// Whether a timestamp lies at or before the last stored row.
    pub open spec fn covers(self, ts: int) -> bool {
        self.last_ts_micros matches Some(c) && ts <= c
    }

    /// Tests whether a timestamp lies at or before the last stored row.
    pub fn has_stored(&self, ts_micros: i64) -> (r: bool)
        ensures
            r == self.covers(ts_micros as int),
            r == match self.last_ts_micros {
                Some(c) => ts_micros <= c,
                None => false,
            },
    {
        match self.last_ts_micros {
            Some(c) => ts_micros <= c,
            None => false,
        }
    }

    /// Where a run that was asked to start at `from_micros` takes up: there, or
    /// one microsecond behind the last stored row where that is later. Behind
    /// the last instant of all there is none, so that one stands for itself.
    pub fn resume_from(&self, from_micros: i64) -> (r: i64)
        ensures
            r == match self.last_ts_micros {
                Some(c) => if c < from_micros {
                    from_micros as int
                } else if c == i64::MAX {
                    c as int
                } else {
                    c + 1
                },
                None => from_micros as int,
            },
            self.covers(from_micros as int) && from_micros < i64::MAX ==> r > from_micros,
            r < i64::MAX ==> !self.covers(r as int),
    {
        match self.last_ts_micros {
            Some(c) => if c < from_micros {
                from_micros
            } else if c == i64::MAX {
                c
            } else {
                c + 1
            },
            None => from_micros,
        }
    }
}

/// The path of an exchange's cursor file under the data root.
pub fn cursor_path(data_root: &str, exchange: &str) -> (path: String)
    ensures
        path@ == joined(joined(data_root@, exchange@), "cursor.json"@),
{
    join_path(join_path(data_root, exchange).as_str(), "cursor.json")
}

} // verus!
