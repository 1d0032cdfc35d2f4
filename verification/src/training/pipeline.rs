//! From trades to labelled rows.
//!
//! Three things run side by side and are never reset, not even where a month's
//! files end: the bucket being filled, the ticks that wait for their label
//! together with the returns, and the files. Between them stands the caller's
//! arithmetic: sums of a bucket, features of a tick, and the move of a price in
//! units of the volatility.

use vstd::prelude::*;

use crate::binary64::Binary64;
use crate::calendar::placeable;
use crate::text::lower;
use crate::training::bucket::kept_trade;
use crate::training::config::{choose_label, label_of, Settings};
use crate::training::features::N_FEATURES;
use crate::training::feed::{fresh_feed, BucketFeed, ClosedBucket, FeedError, FeedModel};
use crate::training::labeller::{is_task_of, LabelTask, Labeller, LabellerModel, Tick};
use crate::training::shards::{
    row_line, writes_row, InvalidRowTime, ManifestTotal, RowWrite, ShardStats, ShardWriter,
    WriterModel,
};
use crate::training::trade::{exchange_named, TradeRow};
use crate::training::volatility::TrackerModel;

verus! {

/// A run from trades to labelled rows.
pub struct Pipeline {
    feed: BucketFeed,
    labeller: Labeller,
    writer: ShardWriter,
    label_vol_multiple: Binary64,
}

/// The state of a run.
pub struct PipelineModel {
    pub feed: FeedModel,
    pub labeller: LabellerModel,
    pub writer: WriterModel,
    pub multiple: Binary64,
}

impl View for Pipeline {
    type V = PipelineModel;

    closed spec fn view(&self) -> PipelineModel {
        PipelineModel {
            feed: self.feed@,
            labeller: self.labeller@,
            writer: self.writer@,
            multiple: self.label_vol_multiple,
        }
    }
}

impl Pipeline {
    /// Whether the parts are in order.
    pub closed spec fn wf(self) -> bool {
        self.feed.wf() && self.labeller.wf()
    }

    /// A run that has seen nothing.
    pub fn new(settings: Settings, label_vol_multiple: Binary64) -> (p: Self)
        requires
            settings.bucket_width_micros != 0,
            settings.label_buckets >= 1,
        ensures
            p.wf(),
            p@.feed == fresh_feed(settings.bucket_width_micros as int),
            p@.labeller.ticks == Seq::<Tick>::empty(),
            p@.labeller.label_buckets == settings.label_buckets,
            p@.labeller.tracker.history.len() == 0,
            p@.labeller.tracker.prev_price is None,
            p@.labeller.tracker.width == settings.vol_window_micros,
            p@.writer == (WriterModel { current: None, closed: Seq::empty() }),
            p@.multiple == label_vol_multiple,
    {
        Pipeline {
            feed: BucketFeed::new(settings.bucket_width_micros),
            labeller: Labeller::new(settings.label_buckets, settings.vol_window_micros),
            writer: ShardWriter::new(),
            label_vol_multiple,
        }
    }

    /// The bucket being filled.
    pub fn feed(&self) -> (f: &BucketFeed)
        ensures
            f@ == self@.feed,
    {
        &self.feed
    }

    /// The ticks that wait for their label.
    pub fn labeller(&self) -> (l: &Labeller)
        requires
            self.wf(),
        ensures
            l@ == self@.labeller,
            l.wf(),
    {
        &self.labeller
    }

    /// The files.
    pub fn writer(&self) -> (w: &ShardWriter)
        ensures
            w@ == self@.writer,
    {
        &self.writer
    }

    /// Takes a trade in. Where it falls behind the bucket being filled, that
    /// bucket is closed and handed out to be made a tick. A trade that lies
    /// before the one ahead of it, or is of an unknown exchange, is an error.
    pub fn process_row(&mut self, row: &TradeRow) -> (r: Result<Option<ClosedBucket>, FeedError>)
        requires
            old(self).wf(),
            old(self)@.feed.row_count < u64::MAX,
            old(self)@.feed.trades.len() < u32::MAX,
            !(row.ts_micros == i64::MIN && old(self)@.feed.width == -1),
        ensures
            final(self).wf(),
            final(self)@ == (PipelineModel { feed: final(self)@.feed, ..old(self)@ }),
            if old(self)@.feed.goes_back(row.ts_micros) {
                &&& r matches Err(FeedError::NotSorted { row: n, ts_micros, prev }) && n
                    == old(self)@.feed.row_count + 1 && ts_micros == row.ts_micros && Some(prev)
                    == old(self)@.feed.last_ts
                &&& final(self)@.feed == (FeedModel {
                    row_count: old(self)@.feed.row_count + 1,
                    ..old(self)@.feed
                })
            } else {
                match exchange_named(row.exchange@) {
                    None => {
                        &&& r matches Err(FeedError::UnknownExchange(name)) && name@ == lower(
                            row.exchange@,
                        )
                        &&& final(self)@.feed == old(self)@.feed.passed(row.ts_micros)
                    },
                    Some(exchange) => {
                        &&& final(self)@.feed == old(self)@.feed.take(
                            row.ts_micros,
                            kept_trade(*row, exchange),
                        )
                        &&& r matches Ok(closed) && match closed {
                            Some(b) => {
                                &&& old(self)@.feed.closes_at(row.ts_micros as int)
                                &&& Some(b.bucket_id as int) == old(self)@.feed.current
                                &&& b.acc.wf()
                                &&& b.acc@ == old(self)@.feed.trades
                            },
                            None => !old(self)@.feed.closes_at(row.ts_micros as int),
                        }
                    },
                }
            },
    {
        self.feed.process_row(row)
    }

    /// Closes the last bucket, where there is one, at the end of the trades.
    pub fn close_last(&mut self) -> (closed: Option<ClosedBucket>)
        requires
            old(self).wf(),
        ensures
            final(self).wf(),
            match closed {
                Some(b) => {
                    &&& Some(b.bucket_id as int) == old(self)@.feed.current
                    &&& b.acc.wf()
                    &&& b.acc@ == old(self)@.feed.trades
                    &&& final(self)@ == (PipelineModel {
                        feed: FeedModel { trades: Seq::empty(), current: None, ..old(self)@.feed },
                        ..old(self)@
                    })
                },
                None => old(self)@.feed.current is None && final(self)@ == old(self)@,
            },
    {
        self.feed.close_last()
    }

    /// Takes the tick of a closed bucket in. Once the label window behind a tick
    /// is full, that tick is handed out to be labelled.
    pub fn take_tick(&mut self, tick: Tick, log_return: Binary64) -> (task: Option<LabelTask>)
        requires
            old(self).wf(),
            old(self)@.labeller.ticks.len() < u64::MAX,
            old(self)@.labeller.follows(tick.ts_micros),
        ensures
            final(self).wf(),
            final(self)@ == (PipelineModel { labeller: final(self)@.labeller, ..old(self)@ }),
            final(self)@.labeller.ticks == old(self)@.labeller.ticks.push(tick),
            final(self)@.labeller.label_buckets == old(self)@.labeller.label_buckets,
            ({
                let pushed = old(self)@.labeller.tracker.push(
                    tick.ts_micros,
                    tick.price,
                    log_return,
                );
                let tracker = final(self)@.labeller.tracker;
                tracker == (TrackerModel {
                    left: tracker.left,
                    entered: tracker.entered,
                    ..pushed
                })
            }),
            match task {
                Some(t) => final(self)@.labeller.ticks.len() > final(self)@.labeller.label_buckets
                    && is_task_of(t, old(self)@.labeller, final(self)@.labeller),
                None => final(self)@.labeller.ticks.len() <= final(self)@.labeller.label_buckets
                    && final(self)@.labeller.tracker.left == old(self)@.labeller.tracker.left
                    && final(self)@.labeller.tracker.entered
                    == old(self)@.labeller.tracker.entered,
            },
    {
        self.labeller.take_tick(tick, log_return)
    }

    /// Labels a tick by its move in units of the volatility, and takes the row
    /// into the file of its month.
    pub fn write_label(&mut self, past: &Tick, z: Binary64) -> (r: Result<
        RowWrite,
        InvalidRowTime,
    >)
        requires
            old(self).wf(),
            past.features@.len() == N_FEATURES,
            old(self)@.writer.has_room(label_of(z, old(self)@.multiple)),
        ensures
            final(self).wf(),
            final(self)@ == (PipelineModel { writer: final(self)@.writer, ..old(self)@ }),
            match r {
                Ok(w) => {
                    &&& placeable(past.ts_micros as int)
                    &&& w.label == label_of(z, old(self)@.multiple)
                    &&& writes_row(
                        old(self)@.writer,
                        final(self)@.writer,
                        past.ts_micros,
                        w.label,
                        w.opened,
                    )
                    &&& w.line@ == row_line(past.features@, w.label)
                },
                Err(e) => !placeable(past.ts_micros as int) && e.ts_micros == past.ts_micros
                    && final(self)@ == old(self)@,
            },
    {
        let label: u8 = choose_label(z, self.label_vol_multiple);
        self.writer.write_row(past.ts_micros, &past.features, label)
    }

    /// Ends the run: closes the last month, and tells what is said of each.
    pub fn finish(self) -> (shards: Vec<ShardStats>)
        ensures
            shards@ == self@.writer.shards(),
    {
        self.writer.finish()
    }
}

/// Too few trades came for a single labelled row.
#[derive(Clone, Copy, Debug, PartialEq, Eq, Structural)]
pub struct NoRows;

/// Tests that a run has made labelled rows.
pub fn require_rows(total: &ManifestTotal) -> (r: Result<(), NoRows>)
    ensures
        r == (if total.rows > 0 {
            Ok::<(), NoRows>(())
        } else {
            Err(NoRows)
        }),
{
    if total.rows > 0 {
        Ok(())
    } else {
        Err(NoRows)
    }
}

} // verus!
