//! Ticks held back until the end of their label window is known.
//!
//! The window is counted in ticks. A bucket that makes no tick does not count, so
//! where there are gaps in the trades a window spans more time than its buckets
//! would side by side.

use std::collections::VecDeque;

use vstd::prelude::*;

use crate::binary64::{law_patterns_tell_what_a_number_is, Binary64};
use crate::training::volatility::{
    in_time_order, in_window, values, window_of, LabelVolTracker, TimedReturn, TrackerModel, WindowStep,
};

verus! {

/// A tick: the middle of its bucket, its price, and the texts of its features.
#[derive(Debug)]
pub struct Tick {
    pub ts_micros: i64,
    pub price: Binary64,
    pub features: Vec<String>,
}

/// A row to be labelled: the tick it is about, the price at the end of the label
/// window, which is that of the tick so many ticks later as the window counts, and
/// how the window of returns has changed since the row before.
pub struct LabelTask {
    pub past: Tick,
    pub future_price: Binary64,
    /// Whether both prices are positive, so that there is a move between them.
    pub has_move: bool,
    pub step: WindowStep,
    /// Returns in the window.
    pub window_len: usize,
    /// Whether these are enough for an estimate.
    pub has_estimate: bool,
}

/// The ticks that wait for their label, at most as many as the label window
/// counts.
pub struct Labeller {
    ring: VecDeque<Tick>,
    label_buckets: usize,
    tracker: LabelVolTracker,
    bucket_count: u64,
    ticks: Ghost<Seq<Tick>>,
}

/// The state of a labeller: all ticks seen, how many buckets fill the label
/// window, and the returns.
pub struct LabellerModel {
    pub ticks: Seq<Tick>,
    pub label_buckets: int,
    pub tracker: TrackerModel,
}

/// Whether ticks stand in the order of time.
pub open spec fn ticks_ascend(ticks: Seq<Tick>) -> bool {
    forall|i: int, j: int|
        0 <= i <= j < ticks.len() ==> (#[trigger] ticks[i]).ts_micros <= (
        #[trigger] ticks[j]).ts_micros
}

impl LabellerModel {
    /// Ticks that have got their label.
    pub open spec fn labelled(self) -> int {
        if self.ticks.len() > self.label_buckets {
            self.ticks.len() - self.label_buckets
        } else {
            0
        }
    }

    /// Whether ticks and returns stand in the order of time, no return is later
    /// than the last tick, and the window is that of the tick labelled last.
    pub open spec fn wf(self) -> bool {
        &&& self.label_buckets >= 1
        &&& ticks_ascend(self.ticks)
        &&& self.tracker.wf()
        &&& in_time_order(self.tracker.history)
        &&& self.ticks.len() == 0 ==> self.tracker.history.len() == 0
        &&& self.tracker.history.len() > 0 ==> self.tracker.history.last().ts_micros
            <= self.ticks.last().ts_micros
        &&& if self.labelled() == 0 {
            self.tracker.entered == 0
        } else {
            self.tracker.settled_at(self.ticks[self.labelled() - 1].ts_micros as int)
        }
    }

    /// Whether a tick goes on in the order of time.
    pub open spec fn follows(self, ts: i64) -> bool {
        self.ticks.len() > 0 ==> self.ticks.last().ts_micros <= ts
    }
}

impl View for Labeller {
    type V = LabellerModel;

    closed spec fn view(&self) -> LabellerModel {
        LabellerModel {
            ticks: self.ticks@,
            label_buckets: self.label_buckets as int,
            tracker: self.tracker@,
        }
    }
}

/// Whether a task is that of the tick a label window before the last.
pub open spec fn is_task_of(task: LabelTask, before: LabellerModel, after: LabellerModel) -> bool {
    let n = after.ticks.len() - 1;
    let past = after.ticks[n - after.label_buckets];
    let future = after.ticks[n];
    let history = after.tracker.history;
    &&& task.past == past
    &&& task.future_price == future.price
    &&& task.has_move == (past.price.positive() && future.price.positive())
    &&& after.tracker.window() == window_of(
        history,
        past.ts_micros - after.tracker.width,
        past.ts_micros as int,
    )
    &&& after.tracker.waits_behind(past.ts_micros as int)
    &&& task.window_len == after.tracker.window().len()
    &&& task.has_estimate == (after.tracker.window().len() >= 2)
    &&& before.tracker.left <= after.tracker.left
    &&& before.tracker.entered <= after.tracker.entered
    &&& task.step.entered@ == values(
        history.subrange(before.tracker.entered, after.tracker.entered),
    )
    &&& task.step.left@ == values(history.subrange(before.tracker.left, after.tracker.left))
}

impl Labeller {
    /// Whether the ring holds the ticks that have no label yet.
    pub closed spec fn wf(self) -> bool {
        &&& self@.wf()
        &&& self.tracker.wf()
        &&& self.ring@ == self.ticks@.skip(self@.labelled())
        &&& self.bucket_count == self.ticks@.len()
    }

    /// A labeller that has seen nothing.
    pub fn new(label_buckets: usize, vol_window_micros: i64) -> (l: Self)
        requires
            label_buckets >= 1,
        ensures
            l.wf(),
            l@.wf(),
            l@.ticks == Seq::<Tick>::empty(),
            l@.label_buckets == label_buckets,
            l@.tracker.history == Seq::<TimedReturn>::empty(),
            l@.tracker.prev_price is None,
            l@.tracker.width == vol_window_micros,
    {
        let l = Labeller {
            ring: VecDeque::new(),
            label_buckets,
            tracker: LabelVolTracker::new(vol_window_micros),
            bucket_count: 0,
            ticks: Ghost(Seq::empty()),
        };
        assert(l.ring@ =~= l.ticks@.skip(0));
        l
    }

    /// Ticks seen so far.
    pub fn bucket_count(&self) -> (n: u64)
        requires
            self.wf(),
        ensures
            n == self@.ticks.len(),
    {
        self.bucket_count
    }

    /// Tests whether a tick goes on in the order of time.
    pub fn can_follow(&self, ts_micros: i64) -> (r: bool)
        requires
            self.wf(),
        ensures
            r == self@.follows(ts_micros),
    {
        let n: usize = self.ring.len();
        n == 0 || self.ring[n - 1].ts_micros <= ts_micros
    }

    /// The price before, where it and a price make a return.
    pub fn return_base(&self, price: Binary64) -> (prev: Option<Binary64>)
        ensures
            prev == (if self@.tracker.makes_return(price) {
                self@.tracker.prev_price
            } else {
                None
            }),
    {
        self.tracker.return_base(price)
    }

    /// Takes a tick in. Once the label window behind a tick is full, that tick
    /// is handed out to be labelled, with the returns up to its own time and
    /// none beyond.
    pub fn take_tick(&mut self, tick: Tick, log_return: Binary64) -> (task: Option<LabelTask>)
        requires
            old(self).wf(),
            old(self)@.ticks.len() < u64::MAX,
            old(self)@.follows(tick.ts_micros),
        ensures
            final(self).wf(),
            final(self)@.wf(),
            final(self)@.ticks == old(self)@.ticks.push(tick),
            final(self)@.label_buckets == old(self)@.label_buckets,
            ({
                let pushed = old(self)@.tracker.push(tick.ts_micros, tick.price, log_return);
                let tracker = final(self)@.tracker;
                tracker == (TrackerModel {
                    left: tracker.left,
                    entered: tracker.entered,
                    ..pushed
                })
            }),
            match task {
                Some(t) => final(self)@.ticks.len() > final(self)@.label_buckets && is_task_of(
                    t,
                    old(self)@,
                    final(self)@,
                ),
                None => final(self)@.ticks.len() <= final(self)@.label_buckets
                    && final(self)@.tracker.left == old(self)@.tracker.left
                    && final(self)@.tracker.entered == old(self)@.tracker.entered,
            },
    {
        let ghost before = self@;
        let ghost newest = tick;
        proof {
            assert(before.tracker.history.len() > 0 ==> before.tracker.history.last().ts_micros
                <= tick.ts_micros);
        }
        let future_price = tick.price;
        self.tracker.push_bucket(tick.ts_micros, tick.price, log_return);
        self.ring.push_back(tick);
        self.ticks = Ghost(self.ticks@.push(newest));
        self.bucket_count = self.bucket_count + 1;
        let ghost all = self.ticks@;
        let ghost history = self.tracker@.history;
        proof {
            assert(ticks_ascend(all));
            assert(in_time_order(history));
            assert(self.ring@ =~= all.skip(before.labelled()));
        }
        if self.ring.len() > self.label_buckets {
            let past_ts: i64 = self.ring[0].ts_micros;
            proof {
                assert(self.ring@[0] == all[before.labelled()]);
                if before.labelled() > 0 {
                    let c = all[before.labelled() - 1].ts_micros;
                    assert(c <= past_ts);
                    assert forall|i: int| 0 <= i < self.tracker@.left implies (
                    #[trigger] history[i]).ts_micros < past_ts - self.tracker@.width by {
                        assert(history[i] == before.tracker.history[i]);
                    }
                    assert forall|i: int| 0 <= i < self.tracker@.entered implies (
                    #[trigger] history[i]).ts_micros <= past_ts by {
                        assert(history[i] == before.tracker.history[i]);
                    }
                }
            }
            let step = self.tracker.advance_to(past_ts);
            let past = self.ring.pop_front().unwrap();
            assert(self.ring@ =~= all.skip(before.labelled() + 1));
            let has_estimate = self.tracker.has_estimate();
            let window_len: usize = self.tracker.window_len();
            let has_move = past.price.is_positive() && future_price.is_positive();
            Some(LabelTask { past, future_price, has_move, step, window_len, has_estimate })
        } else {
            None
        }
    }
}

/// A tick gets its label when as many ticks have come behind it as the label window
/// counts: its task has the tick itself, the price of the tick so many later, and
/// whether both prices are positive. The returns that came into the window and left
/// it are told by their values, and two of them are enough for an estimate. None of
/// the returns in the window is later than the tick or older than the window is
/// wide, and none such is left out.
pub proof fn law_a_label_looks_one_window_ahead(
    task: LabelTask,
    before: LabellerModel,
    after: LabellerModel,
)
    requires
        after.wf(),
        after.ticks.len() > after.label_buckets,
        is_task_of(task, before, after),
        0 <= before.tracker.left,
        0 <= before.tracker.entered,
    ensures
        ({
            let n = after.ticks.len() - 1;
            let past = after.ticks[n - after.label_buckets];
            let m = after.tracker;
            let positive = |p: Binary64| 0 < p.bits <= 0x7FF0_0000_0000_0000;
            &&& task.past == past
            &&& task.future_price == after.ticks[n].price
            &&& task.has_move <==> positive(past.price) && positive(after.ticks[n].price)
            &&& task.window_len == m.entered - m.left
            &&& task.has_estimate <==> m.entered - m.left >= 2
            &&& forall|i: int|
                m.entered <= i < m.history.len() ==> past.ts_micros < (
                #[trigger] m.history[i]).ts_micros
            &&& forall|r: TimedReturn| #[trigger]
                m.window().contains(r) <==> m.history.contains(r) && past.ts_micros - m.width
                    <= r.ts_micros <= past.ts_micros
            &&& task.step.entered@.len() == m.entered - before.tracker.entered
            &&& task.step.left@.len() == m.left - before.tracker.left
            &&& forall|i: int|
                0 <= i < task.step.entered@.len() ==> #[trigger] task.step.entered@[i]
                    == m.history[before.tracker.entered + i].log_return
            &&& forall|i: int|
                0 <= i < task.step.left@.len() ==> #[trigger] task.step.left@[i]
                    == m.history[before.tracker.left + i].log_return
        }),
{
    let n = after.ticks.len() - 1;
    let past = after.ticks[n - after.label_buckets];
    let m = after.tracker;
    law_patterns_tell_what_a_number_is(past.price);
    law_patterns_tell_what_a_number_is(after.ticks[n].price);
    let (from, to) = (past.ts_micros - m.width, past.ts_micros as int);
    let pred = |r: TimedReturn| in_window(r, from, to);
    assert(m.window() == m.history.filter(pred));
    assert forall|r: TimedReturn| #[trigger] m.window().contains(r) <==> m.history.contains(r)
        && past.ts_micros - m.width <= r.ts_micros <= past.ts_micros by {
        if m.window().contains(r) {
            let i = choose|i: int| 0 <= i < m.window().len() && m.window()[i] == r;
            m.history.lemma_filter_pred(pred, i);
            m.history.lemma_filter_contains_rev(pred, r);
        }
        if m.history.contains(r) && from <= r.ts_micros <= to {
            let i = choose|i: int| 0 <= i < m.history.len() && m.history[i] == r;
            m.history.lemma_filter_contains(pred, i);
        }
    }
}

/// As many ticks wait for their label as the label window counts, and all before
/// them have got one.
pub proof fn law_ticks_wait_for_one_window(m: LabellerModel)
    requires
        m.label_buckets >= 0,
    ensures
        m.ticks.len() <= m.label_buckets ==> m.labelled() == 0,
        m.ticks.len() > m.label_buckets ==> m.labelled() + m.label_buckets == m.ticks.len(),
{
}

/// A tick goes on in the order of time exactly where none is later than it.
pub proof fn law_ticks_go_on_in_time(m: LabellerModel, ts: i64)
    requires
        m.wf(),
    ensures
        m.follows(ts) <==> forall|i: int|
            0 <= i < m.ticks.len() ==> (#[trigger] m.ticks[i]).ts_micros <= ts,
{
    let n = m.ticks.len() - 1;
    if m.ticks.len() > 0 {
        assert(m.ticks.last() == m.ticks[n]);
        if m.follows(ts) {
            assert forall|i: int| 0 <= i < m.ticks.len() implies (#[trigger] m.ticks[i]).ts_micros
                <= ts by {
                assert(m.ticks[i].ts_micros <= m.ticks[n].ts_micros);
            }
        }
    }
}

} // verus!
