//! The returns that a label's volatility is estimated from.
//!
//! Each tick but the first makes a return, stamped with the tick's time. The
//! estimate for a label at one instant uses the returns of a trailing window
//! that ends at that instant: what comes later plays no part in it, though it
//! may have been seen already.

use std::collections::VecDeque;

use vstd::prelude::*;

use crate::binary64::{law_patterns_tell_what_a_number_is, Binary64};

verus! {

/// The pattern of the floor under an estimate: a thousandth.
pub const MIN_VOL_FLOOR_BITS: u64 = 0x3F50_624D_D2F1_A9FC;

/// A return and its time.
#[derive(Clone, Copy, Debug, PartialEq, Eq, Structural)]
pub struct TimedReturn {
    pub ts_micros: i64,
    pub log_return: Binary64,
}

/// Whether returns stand in ascending order of time.
pub open spec fn in_time_order(list: Seq<TimedReturn>) -> bool {
    forall|i: int, j: int|
        0 <= i <= j < list.len() ==> (#[trigger] list[i]).ts_micros <= (
        #[trigger] list[j]).ts_micros
}

/// Whether a return lies between two instants, both of them belonging to the
/// window.
pub open spec fn in_window(r: TimedReturn, from: int, to: int) -> bool {
    from <= r.ts_micros <= to
}

/// The returns that lie between two instants, in order.
pub open spec fn window_of(list: Seq<TimedReturn>, from: int, to: int) -> Seq<TimedReturn> {
    list.filter(|r: TimedReturn| in_window(r, from, to))
}

/// How the window of returns has changed: those that entered it behind the rest,
/// and those that left it at the front. One return may do both.
pub struct WindowStep {
    pub entered: Vec<Binary64>,
    pub left: Vec<Binary64>,
}

/// The values of returns.
pub open spec fn values(list: Seq<TimedReturn>) -> Seq<Binary64> {
    list.map_values(|r: TimedReturn| r.log_return)
}

/// The returns seen so far, and which of them lie in the window.
pub struct LabelVolTracker {
    /// Returns behind the window's end.
    ahead: VecDeque<TimedReturn>,
    /// Returns in the window.
    inside: VecDeque<TimedReturn>,
    vol_window_micros: i64,
    prev_price: Option<Binary64>,
    history: Ghost<Seq<TimedReturn>>,
}

/// The state of a tracker: all returns seen, how many of them have left the
/// window, how many have entered it, the price seen last, and the window's
/// width.
pub struct TrackerModel {
    pub history: Seq<TimedReturn>,
    pub left: int,
    pub entered: int,
    pub prev_price: Option<Binary64>,
    pub width: int,
}

impl TrackerModel {
    /// The returns in the window.
    pub open spec fn window(self) -> Seq<TimedReturn> {
        self.history.subrange(self.left, self.entered)
    }

    /// Whether a price makes a return: there is one before it, and both are
    /// positive.
    pub open spec fn makes_return(self, price: Binary64) -> bool {
        self.prev_price matches Some(prev) && prev.positive() && price.positive()
    }

    /// The state behind a tick.
    pub open spec fn push(self, ts: i64, price: Binary64, log_return: Binary64) -> TrackerModel {
        TrackerModel {
            history: if self.makes_return(price) {
                self.history.push(TimedReturn { ts_micros: ts, log_return })
            } else {
                self.history
            },
            prev_price: Some(price),
            ..self
        }
    }

    /// Whether what has left the window lies before the window of an instant, and
    /// what has entered it does not lie behind the instant.
    pub open spec fn settled_at(self, cutoff: int) -> bool {
        &&& forall|i: int|
            0 <= i < self.left ==> (#[trigger] self.history[i]).ts_micros < cutoff - self.width
        &&& forall|i: int|
            0 <= i < self.entered ==> (#[trigger] self.history[i]).ts_micros <= cutoff
    }

    /// Whether every return that has not entered the window lies behind an
    /// instant.
    pub open spec fn waits_behind(self, cutoff: int) -> bool {
        forall|i: int|
            self.entered <= i < self.history.len() ==> cutoff < (#[trigger] self.history[i]).ts_micros
    }

    /// Whether the window is that of an instant: what has left it lies before the
    /// window, what is in it does not, and the rest lies behind the instant.
    pub open spec fn stands_at(self, cutoff: int) -> bool {
        &&& self.settled_at(cutoff)
        &&& self.waits_behind(cutoff)
        &&& forall|i: int|
            self.left <= i < self.entered ==> cutoff - self.width <= (
            #[trigger] self.history[i]).ts_micros
    }

    /// Whether the window's bounds lie among the returns seen.
    pub open spec fn wf(self) -> bool {
        0 <= self.left <= self.entered <= self.history.len()
    }
}

impl View for LabelVolTracker {
    type V = TrackerModel;

    closed spec fn view(&self) -> TrackerModel {
        TrackerModel {
            history: self.history@,
            left: self.history@.len() - self.ahead@.len() - self.inside@.len(),
            entered: self.history@.len() - self.ahead@.len(),
            prev_price: self.prev_price,
            width: self.vol_window_micros as int,
        }
    }
}

impl LabelVolTracker {
    /// Whether the two queues hold the last of the returns seen.
    pub closed spec fn wf(self) -> bool {
        &&& self@.wf()
        &&& self.inside@ == self@.window()
        &&& self.ahead@ == self@.history.skip(self@.entered)
    }

    /// A tracker that has seen nothing.
    pub fn new(vol_window_micros: i64) -> (t: Self)
        ensures
            t.wf(),
            t@.wf(),
            t@ == (TrackerModel {
                history: Seq::empty(),
                left: 0,
                entered: 0,
                prev_price: None,
                width: vol_window_micros as int,
            }),
    {
        let t = LabelVolTracker {
            ahead: VecDeque::new(),
            inside: VecDeque::new(),
            vol_window_micros,
            prev_price: None,
            history: Ghost(Seq::empty()),
        };
        assert(t.inside@ =~= t@.window());
        assert(t.ahead@ =~= t@.history.skip(t@.entered));
        t
    }

    /// The price before, where it and a price make a return.
    pub fn return_base(&self, price: Binary64) -> (prev: Option<Binary64>)
        ensures
            prev == (if self@.makes_return(price) {
                self@.prev_price
            } else {
                None
            }),
    {
        match self.prev_price {
            Some(prev) => if prev.is_positive() && price.is_positive() {
                Some(prev)
            } else {
                None
            },
            None => None,
        }
    }

    /// Takes a tick in. Its return is the logarithm of its price over the price
    /// before, where they make one.
    pub fn push_bucket(&mut self, ts_micros: i64, price: Binary64, log_return: Binary64)
        requires
            old(self).wf(),
        ensures
            final(self).wf(),
            final(self)@.wf(),
            final(self)@ == old(self)@.push(ts_micros, price, log_return),
    {
        match self.return_base(price) {
            Some(_) => {
                let r = TimedReturn { ts_micros, log_return };
                self.ahead.push_back(r);
                self.history = Ghost(self.history@.push(r));
            },
            None => {},
        }
        self.prev_price = Some(price);
        proof {
            assert(self.inside@ =~= self@.window());
            assert(self.ahead@ =~= self@.history.skip(self@.entered));
        }
    }

    /// Moves the window on to end at an instant. Afterwards it holds exactly the
    /// returns from the window's width before the instant up to it, whatever has
    /// been seen beyond. Every return up to the instant has entered the window, and
    /// the older ones have left it. Asking again for the same instant changes
    /// nothing.
    pub fn advance_to(&mut self, cutoff_ts: i64) -> (step: WindowStep)
        requires
            old(self).wf(),
            in_time_order(old(self)@.history),
            old(self)@.settled_at(cutoff_ts as int),
        ensures
            final(self).wf(),
            final(self)@.wf(),
            final(self)@ == (TrackerModel {
                left: final(self)@.left,
                entered: final(self)@.entered,
                ..old(self)@
            }),
            final(self)@.stands_at(cutoff_ts as int),
            final(self)@.window() == window_of(
                old(self)@.history,
                cutoff_ts - old(self)@.width,
                cutoff_ts as int,
            ),
            old(self)@.left <= final(self)@.left,
            old(self)@.entered <= final(self)@.entered,
            step.entered@ == values(
                old(self)@.history.subrange(old(self)@.entered, final(self)@.entered),
            ),
            step.left@ == values(old(self)@.history.subrange(old(self)@.left, final(self)@.left)),
            old(self)@.stands_at(cutoff_ts as int) ==> {
                &&& final(self)@ == old(self)@
                &&& step.entered@.len() == 0
                &&& step.left@.len() == 0
            },
    {
        let ghost start = self@;
        let ghost history = self@.history;
        let mut entered: Vec<Binary64> = Vec::new();
        let mut left: Vec<Binary64> = Vec::new();
        assert(entered@ =~= values(history.subrange(start.entered, start.entered)));
        while self.ahead.len() > 0 && self.ahead[0].ts_micros <= cutoff_ts
            invariant
                self.wf(),
                self@.wf(),
                start.wf(),
                self@ == (TrackerModel { entered: self@.entered, ..start }),
                history == start.history,
                start.entered <= self@.entered,
                self@.settled_at(cutoff_ts as int),
                entered@ == values(history.subrange(start.entered, self@.entered)),
            decreases self.ahead@.len(),
        {
            let ghost k = self@.entered;
            let r = self.ahead[0];
            assert(r == history[k]);
            self.ahead.pop_front();
            self.inside.push_back(r);
            entered.push(r.log_return);
            proof {
                assert(self@.entered == k + 1);
                assert(self.inside@ =~= self@.window());
                assert(self.ahead@ =~= self@.history.skip(self@.entered));
                assert(entered@ =~= values(history.subrange(start.entered, self@.entered)));
            }
        }
        let ghost mid = self@;
        proof {
            assert forall|i: int| mid.entered <= i < history.len() implies cutoff_ts < (
            #[trigger] history[i]).ts_micros by {
                assert(self.ahead@[0] == history[mid.entered]);
            }
            assert(left@ =~= values(history.subrange(start.left, start.left)));
        }
        let oldest: i128 = cutoff_ts as i128 - self.vol_window_micros as i128;
        while self.inside.len() > 0 && (self.inside[0].ts_micros as i128) < oldest
            invariant
                self.wf(),
                self@.wf(),
                start.wf(),
                self@ == (TrackerModel { left: self@.left, ..mid }),
                mid.waits_behind(cutoff_ts as int),
                mid == (TrackerModel { entered: mid.entered, ..start }),
                history == start.history,
                start.left <= self@.left,
                oldest == cutoff_ts - start.width,
                self@.settled_at(cutoff_ts as int),
                left@ == values(history.subrange(start.left, self@.left)),
            decreases self.inside@.len(),
        {
            let ghost k = self@.left;
            let r = self.inside[0];
            assert(r == history[k]);
            self.inside.pop_front();
            left.push(r.log_return);
            proof {
                assert(self@.left == k + 1);
                assert(self.inside@ =~= self@.window());
                assert(left@ =~= values(history.subrange(start.left, self@.left)));
            }
        }
        proof {
            let last = self@;
            assert forall|i: int| last.left <= i < last.entered implies oldest <= (
            #[trigger] history[i]).ts_micros by {
                assert(self.inside@[0] == history[last.left]);
            }
            lemma_window_is_subrange(
                history,
                last.left,
                last.entered,
                cutoff_ts - start.width,
                cutoff_ts as int,
            );
            if start.stands_at(cutoff_ts as int) {
                law_asking_again_gives_the_same_window(start, last, cutoff_ts as int);
            }
        }
        WindowStep { entered, left }
    }

    /// Whether the window holds enough returns for an estimate.
    pub fn has_estimate(&self) -> (r: bool)
        requires
            self.wf(),
        ensures
            r == (self@.window().len() >= 2),
    {
        self.inside.len() >= 2
    }

    /// Returns in the window.
    pub fn window_len(&self) -> (n: usize)
        requires
            self.wf(),
        ensures
            n == self@.window().len(),
    {
        self.inside.len()
    }
}

/// Returns in one stretch are those between two instants where those before and
/// behind the stretch are not.
proof fn lemma_window_is_subrange(
    history: Seq<TimedReturn>,
    left: int,
    entered: int,
    from: int,
    to: int,
)
    requires
        0 <= left <= entered <= history.len(),
        forall|i: int| 0 <= i < left ==> (#[trigger] history[i]).ts_micros < from,
        forall|i: int| left <= i < entered ==> from <= (#[trigger] history[i]).ts_micros <= to,
        forall|i: int| entered <= i < history.len() ==> to < (#[trigger] history[i]).ts_micros,
    ensures
        history.subrange(left, entered) == window_of(history, from, to),
    decreases history.len(),
{
    reveal(Seq::filter);
    let pred = |r: TimedReturn| in_window(r, from, to);
    if history.len() == 0 {
        assert(history.subrange(left, entered) =~= window_of(history, from, to));
    } else {
        let head = history.drop_last();
        let n = history.len() - 1;
        assert forall|i: int| 0 <= i < head.len() implies #[trigger] head[i] == history[i] by {}
        if entered == history.len() {
            if left == history.len() {
                lemma_window_is_subrange(head, left - 1, entered - 1, from, to);
                assert(history[n].ts_micros < from);
                assert(history.subrange(left, entered) =~= head.subrange(left - 1, entered - 1));
            } else {
                lemma_window_is_subrange(head, left, entered - 1, from, to);
                assert(from <= history[n].ts_micros <= to);
                assert(history.subrange(left, entered) =~= head.subrange(left, entered - 1).push(
                    history[n],
                ));
            }
        } else {
            lemma_window_is_subrange(head, left, entered, from, to);
            assert(to < history[n].ts_micros);
            assert(history.subrange(left, entered) =~= head.subrange(left, entered));
        }
    }
}

/// The window of an instant is one: two states that have seen the same returns
/// and stand at the same instant have the same window.
pub proof fn law_asking_again_gives_the_same_window(
    first: TrackerModel,
    second: TrackerModel,
    cutoff: int,
)
    requires
        first.wf(),
        second.wf(),
        first.history == second.history,
        first.width == second.width,
        first.stands_at(cutoff),
        second.stands_at(cutoff),
    ensures
        second.left == first.left,
        second.entered == first.entered,
        second.window() == first.window(),
{
    let history = first.history;
    if first.entered < second.entered {
        assert(cutoff < history[first.entered].ts_micros);
    } else if second.entered < first.entered {
        assert(cutoff < history[second.entered].ts_micros);
    }
    if first.left < second.left {
        assert(history[first.left].ts_micros < cutoff - first.width);
    } else if second.left < first.left {
        assert(history[second.left].ts_micros < cutoff - first.width);
    }
}

/// An estimate, never below the floor. Without enough returns it is the floor.
pub open spec fn floored_estimate(sigma: Binary64, enough: bool) -> Binary64 {
    if enough {
        sigma.larger(Binary64 { bits: MIN_VOL_FLOOR_BITS })
    } else {
        Binary64 { bits: MIN_VOL_FLOOR_BITS }
    }
}

/// Holds an estimate to the floor.
pub fn floor_estimate(sigma: Binary64, enough: bool) -> (r: Binary64)
    ensures
        r == floored_estimate(sigma, enough),
{
    if enough {
        sigma.max_of(Binary64 { bits: MIN_VOL_FLOOR_BITS })
    } else {
        Binary64 { bits: MIN_VOL_FLOOR_BITS }
    }
}

/// The estimate held to the floor is always a number and never below the floor,
/// whatever came in; without enough returns it is the floor itself.
pub proof fn law_estimates_keep_to_the_floor(sigma: Binary64, enough: bool)
    ensures
        ({
            let floor = Binary64 { bits: 0x3F50_624D_D2F1_A9FC };
            let r = floored_estimate(sigma, enough);
            &&& !r.is_nan()
            &&& !floor.is_nan()
            &&& floor.scaled() <= r.scaled()
            &&& !enough ==> r == floor
            &&& r == floor || r == sigma
            &&& enough && !sigma.is_nan() && floor.scaled() < sigma.scaled() ==> r == sigma
        }),
{
}

/// A variance, or zero where rounding has brought it below that.
pub fn guard_variance(variance: Binary64) -> (r: Binary64)
    ensures
        r == (if variance.below(Binary64 { bits: 0 }) {
            Binary64 { bits: 0 }
        } else {
            variance
        }),
{
    if variance.less_than(Binary64 { bits: 0 }) {
        Binary64 { bits: 0 }
    } else {
        variance
    }
}

/// What is seen behind an instant plays no part in the window that ends at it:
/// the window is the same whatever returns follow.
pub proof fn law_the_future_plays_no_part(
    past: Seq<TimedReturn>,
    future: Seq<TimedReturn>,
    from: int,
    cutoff: int,
)
    requires
        forall|i: int| 0 <= i < future.len() ==> cutoff < (#[trigger] future[i]).ts_micros,
    ensures
        window_of(past + future, from, cutoff) == window_of(past, from, cutoff),
    decreases future.len(),
{
    reveal(Seq::filter);
    if future.len() == 0 {
        assert(past + future =~= past);
    } else {
        let head = future.drop_last();
        assert forall|i: int| 0 <= i < head.len() implies #[trigger] head[i] == future[i] by {}
        law_the_future_plays_no_part(past, head, from, cutoff);
        assert((past + future).drop_last() =~= past + head);
        assert((past + future).last() == future[future.len() - 1]);
    }
}

// ── Returns ─────────────────────────────────────────────────────────────────

/// A tick as a tracker takes it in.
pub struct PricedTick {
    pub ts_micros: i64,
    pub price: Binary64,
    pub log_return: Binary64,
}

/// The state behind a stream of ticks.
pub open spec fn followed(start: TrackerModel, ticks: Seq<PricedTick>) -> TrackerModel
    decreases ticks.len(),
{
    if ticks.len() == 0 {
        start
    } else {
        let t = ticks.last();
        followed(start, ticks.drop_last()).push(t.ts_micros, t.price, t.log_return)
    }
}

/// Of a stream of ticks with positive prices every tick but the first makes exactly
/// one return, at its own time and whichever way the price moves.
pub proof fn law_every_tick_but_the_first_makes_a_return(
    start: TrackerModel,
    ticks: Seq<PricedTick>,
)
    requires
        start.history.len() == 0,
        start.prev_price is None,
        forall|i: int|
            0 <= i < ticks.len() ==> !(#[trigger] ticks[i]).price.is_nan() && ticks[i].price.scaled()
                > 0,
    ensures
        ({
            let history = followed(start, ticks).history;
            &&& ticks.len() == 0 ==> history.len() == 0
            &&& ticks.len() > 0 ==> history.len() == ticks.len() - 1
            &&& forall|i: int|
                0 <= i < history.len() ==> {
                    &&& (#[trigger] history[i]).ts_micros == ticks[i + 1].ts_micros
                    &&& history[i].log_return == ticks[i + 1].log_return
                }
            &&& ticks.len() > 0 ==> followed(start, ticks).prev_price == Some(ticks.last().price)
        }),
    decreases ticks.len(),
{
    if ticks.len() > 0 {
        let head = ticks.drop_last();
        assert forall|i: int| 0 <= i < head.len() implies #[trigger] head[i] == ticks[i] by {}
        law_every_tick_but_the_first_makes_a_return(start, head);
        let n = ticks.len() - 1;
        assert(ticks[n].price.scaled() > 0);
        if n > 0 {
            assert(head.last() == ticks[n - 1]);
            assert(ticks[n - 1].price.scaled() > 0);
        }
        let (before, after) = (followed(start, head).history, followed(start, ticks).history);
        assert forall|i: int| 0 <= i < after.len() implies {
            &&& (#[trigger] after[i]).ts_micros == ticks[i + 1].ts_micros
            &&& after[i].log_return == ticks[i + 1].log_return
        } by {
            if i < before.len() {
                assert(after[i] == before[i]);
                assert(head[i + 1] == ticks[i + 1]);
            }
        }
    }
}

/// A price makes a return exactly where it and the price before it are positive
/// numbers; whichever of the two is larger plays no part. The price is kept for the
/// next one in any case, and nothing that was seen is lost.
pub proof fn law_positive_prices_make_returns(
    m: TrackerModel,
    ts: i64,
    price: Binary64,
    log_return: Binary64,
)
    ensures
        ({
            let after = m.push(ts, price, log_return);
            let positive = |p: Binary64| 0 < p.bits <= 0x7FF0_0000_0000_0000;
            let both = m.prev_price is Some && positive(m.prev_price->0) && positive(price);
            &&& m.makes_return(price) <==> both
            &&& both ==> after.history == m.history.push(TimedReturn { ts_micros: ts, log_return })
            &&& !both ==> after.history == m.history
            &&& after.prev_price == Some(price)
            &&& after.left == m.left && after.entered == m.entered && after.width == m.width
        }),
{
    law_patterns_tell_what_a_number_is(price);
    if m.prev_price is Some {
        law_patterns_tell_what_a_number_is(m.prev_price->0);
    }
}

/// A window takes up every return that lies between its two instants, or at one of
/// them, in order, and no other.
pub proof fn law_windows_hold_what_lies_in_them(
    list: Seq<TimedReturn>,
    r: TimedReturn,
    from: int,
    to: int,
)
    ensures
        window_of(Seq::empty(), from, to) == Seq::<TimedReturn>::empty(),
        from <= r.ts_micros <= to ==> window_of(list.push(r), from, to) == window_of(
            list,
            from,
            to,
        ).push(r),
        r.ts_micros < from || r.ts_micros > to ==> window_of(list.push(r), from, to) == window_of(
            list,
            from,
            to,
        ),
{
    reveal(Seq::filter);
    assert(list.push(r).drop_last() =~= list);
}

/// The window of a tracker is the stretch of returns between those that have left
/// it and those that have not entered it, and the values of returns are their own.
pub proof fn law_the_window_is_a_stretch_of_returns(m: TrackerModel, i: int)
    requires
        m.wf(),
        0 <= i < m.entered - m.left,
    ensures
        m.window().len() == m.entered - m.left,
        m.window()[i] == m.history[m.left + i],
        values(m.window()).len() == m.entered - m.left,
        values(m.window())[i] == m.history[m.left + i].log_return,
{
}

} // verus!
