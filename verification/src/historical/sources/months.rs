//! A walk over the calendar months of a range, for an exchange that publishes
//! its history in one file per completed month.
//!
//! A month whose shard exists was written in full by an earlier run and is left
//! alone. A month whose file cannot be had is left to a later run.

use vstd::prelude::*;

use crate::calendar::{
    advance_month, in_month, law_advancing_leads_to_the_next_month, lemma_month_length,
    lemma_months_increase, midnight, month_end, month_of, month_start, next_month, next_year,
    place_month, placeable, MAX_YEAR, MIN_YEAR,
};
use crate::historical::schema::TradeRow;
use crate::historical::sources::{first_instant, later_of, FetchError};

verus! {

/// A walk over the months of a range.
pub struct MonthWalk {
    year: i32,
    month: u32,
    end_micros: i64,
    total_rows: u64,
}

/// The state of a walk: the month it has come to, the end of the range, and the
/// rows counted.
pub struct WalkModel {
    pub year: int,
    pub month: int,
    pub end: int,
    pub total: int,
}

impl View for MonthWalk {
    type V = WalkModel;

    closed spec fn view(&self) -> WalkModel {
        WalkModel {
            year: self.year as int,
            month: self.month as int,
            end: self.end_micros as int,
            total: self.total_rows as int,
        }
    }
}

impl WalkModel {
    /// Whether the walk has come to a month of the calendar, or to the one right
    /// behind it, and the range ends within the calendar.
    pub open spec fn wf(self) -> bool {
        &&& MIN_YEAR <= self.year <= MAX_YEAR + 1
        &&& 1 <= self.month <= 12
        &&& placeable(self.end)
    }

    /// Whether the month begins at or behind the end of the range.
    pub open spec fn done(self) -> bool {
        month_start(self.year, self.month) >= self.end
    }

    /// The walk at the month that follows, with more rows counted.
    pub open spec fn onward(self, rows: int) -> WalkModel {
        WalkModel {
            year: next_year(self.year, self.month),
            month: next_month(self.month),
            total: self.total + rows,
            ..self
        }
    }
}

/// What is found out about the month that a walk has come to.
pub enum MonthEvent {
    /// The month's shard exists.
    ShardExists,
    /// The month has no shard yet.
    ShardMissing,
    /// The month's file cannot be had.
    NoAnswer,
    /// The rows of the month's file.
    Rows(Vec<TradeRow>),
}

/// What is to be done next.
#[derive(Clone, Copy, Debug, PartialEq, Eq, Structural)]
pub enum MonthAction {
    /// Go on with the next month at once.
    GoOn,
    /// Ask for the month's file.
    Request,
    /// Go on with the next month after a pause.
    Pause,
    /// Write the rows, and go on with the next month after a pause.
    Write,
}

/// What is to be done on an event. A month with a shard is neither asked for nor
/// written.
pub open spec fn action_on(event: MonthEvent) -> MonthAction {
    match event {
        MonthEvent::ShardExists => MonthAction::GoOn,
        MonthEvent::ShardMissing => MonthAction::Request,
        MonthEvent::NoAnswer => MonthAction::Pause,
        MonthEvent::Rows(rows) => if rows@.len() > 0 {
            MonthAction::Write
        } else {
            MonthAction::Pause
        },
    }
}

impl WalkModel {
    /// The walk behind an event.
    pub open spec fn behind(self, event: MonthEvent) -> WalkModel {
        match event {
            MonthEvent::ShardExists => self.onward(0),
            MonthEvent::ShardMissing => self,
            MonthEvent::NoAnswer => self.onward(0),
            MonthEvent::Rows(rows) => self.onward(rows@.len() as int),
        }
    }
}

impl MonthWalk {
    /// Starts a walk at the month of `resume_from_micros`, or of the earliest
    /// instant that the exchange has data for where that is later.
    pub fn start(resume_from_micros: i64, up_to_micros: i64, floor_micros: i64) -> (r: Result<
        MonthWalk,
        FetchError,
    >)
        ensures
            ({
                let from = first_instant(resume_from_micros as int, floor_micros as int);
                if !placeable(from) {
                    r == Err::<MonthWalk, FetchError>(FetchError::InvalidStart)
                } else if !placeable(up_to_micros as int) {
                    r == Err::<MonthWalk, FetchError>(FetchError::InvalidEnd)
                } else {
                    r matches Ok(walk) && walk@ == (WalkModel {
                        year: month_of(from).0 as int,
                        month: month_of(from).1 as int,
                        end: up_to_micros as int,
                        total: 0,
                    }) && walk@.wf()
                }
            }),
    {
        let from: i64 = later_of(resume_from_micros, floor_micros);
        let (year, month) = match place_month(from) {
            Some(key) => key,
            None => return Err(FetchError::InvalidStart),
        };
        match place_month(up_to_micros) {
            Some(_) => {},
            None => return Err(FetchError::InvalidEnd),
        }
        proof {
            lemma_calendar_bounds(from as int, year as int, month as int);
        }
        Ok(MonthWalk { year, month, end_micros: up_to_micros, total_rows: 0 })
    }

    /// Whether the month that the walk has come to begins at or behind the end of
    /// the range.
    pub fn is_done(&self) -> (r: bool)
        requires
            self@.wf(),
        ensures
            r == self@.done(),
    {
        match midnight(self.year, self.month, 1) {
            Some(t) => t >= self.end_micros,
            None => {
                proof {
                    lemma_behind_calendar(self@.month);
                }
                true
            },
        }
    }

    /// The month that the walk has come to.
    pub fn month(&self) -> (key: (i32, u32))
        ensures
            key.0 == self@.year,
            key.1 == self@.month,
    {
        (self.year, self.month)
    }

    /// Rows counted so far.
    pub fn total_rows(&self) -> (n: u64)
        ensures
            n == self@.total,
    {
        self.total_rows
    }

    /// Comes to the month that begins where this one ends.
    fn move_on(&mut self)
        requires
            old(self)@.wf(),
            !old(self)@.done(),
        ensures
            final(self)@ == old(self)@.onward(0),
            final(self)@.wf(),
            month_start(final(self)@.year, final(self)@.month) == month_end(
                old(self)@.year,
                old(self)@.month,
            ),
            month_start(final(self)@.year, final(self)@.month) > month_start(
                old(self)@.year,
                old(self)@.month,
            ),
    {
        proof {
            law_advancing_leads_to_the_next_month(self@.year, self@.month);
            if self@.year > MAX_YEAR {
                lemma_behind_calendar(self@.month);
            }
        }
        let mut year: i32 = self.year;
        let mut month: u32 = self.month;
        advance_month(&mut year, &mut month);
        self.year = year;
        self.month = month;
    }

    /// Takes in what is found out about the month that the walk has come to, and
    /// says what is to be done. Unless the month is still to be asked for, the
    /// walk comes to the month that begins where this one ends.
    pub fn take_event(&mut self, event: &MonthEvent) -> (action: MonthAction)
        requires
            old(self)@.wf(),
            !old(self)@.done(),
            event matches MonthEvent::Rows(rows) ==> old(self)@.total + rows@.len() <= u64::MAX,
        ensures
            action == action_on(*event),
            final(self)@ == old(self)@.behind(*event),
            final(self)@.wf(),
            action != MonthAction::Request ==> month_start(final(self)@.year, final(self)@.month)
                == month_end(old(self)@.year, old(self)@.month),
            action != MonthAction::Request ==> month_start(final(self)@.year, final(self)@.month)
                > month_start(old(self)@.year, old(self)@.month),
    {
        match event {
            MonthEvent::ShardExists => {
                self.move_on();
                MonthAction::GoOn
            },
            MonthEvent::ShardMissing => MonthAction::Request,
            MonthEvent::NoAnswer => {
                self.move_on();
                MonthAction::Pause
            },
            MonthEvent::Rows(rows) => {
                self.move_on();
                self.total_rows = self.total_rows + rows.len() as u64;
                if rows.len() > 0 {
                    MonthAction::Write
                } else {
                    MonthAction::Pause
                }
            },
        }
    }
}

// ── Whole walks ─────────────────────────────────────────────────────────────

/// A walk and what was done on it: the months asked for and the months written.
pub struct Trail {
    pub walk: WalkModel,
    pub requested: Seq<(int, int)>,
    pub written: Seq<(int, int)>,
}

impl Trail {
    /// The trail behind an event: it says what is done.
    pub open spec fn behind(self, event: MonthEvent) -> Trail {
        let key = (self.walk.year, self.walk.month);
        Trail {
            walk: self.walk.behind(event),
            requested: if action_on(event) == MonthAction::Request {
                self.requested.push(key)
            } else {
                self.requested
            },
            written: if action_on(event) == MonthAction::Write {
                self.written.push(key)
            } else {
                self.written
            },
        }
    }
}

/// The trail behind the events of a walk.
pub open spec fn trail(start: WalkModel, events: Seq<MonthEvent>) -> Trail
    decreases events.len(),
{
    if events.len() == 0 {
        Trail { walk: start, requested: Seq::empty(), written: Seq::empty() }
    } else {
        trail(start, events.drop_last()).behind(events.last())
    }
}

/// Whether events come as they can: whether a month has a shard is looked up
/// first, and only a month that was just asked for has an answer.
pub open spec fn can_come(
    start: WalkModel,
    events: Seq<MonthEvent>,
    shards: Set<(int, int)>,
) -> bool {
    forall|i: int|
        0 <= i < events.len() ==> {
            let walk = #[trigger] trail(start, events.take(i)).walk;
            let key = (walk.year, walk.month);
            &&& !walk.done()
            &&& match events[i] {
                MonthEvent::ShardExists => shards.contains(key),
                MonthEvent::ShardMissing => !shards.contains(key),
                _ => i > 0 && events[i - 1] is ShardMissing,
            }
        }
}

/// Events come as they can also without the last of them.
proof fn lemma_all_but_the_last_can_come(
    start: WalkModel,
    events: Seq<MonthEvent>,
    shards: Set<(int, int)>,
)
    requires
        can_come(start, events, shards),
        events.len() > 0,
    ensures
        can_come(start, events.drop_last(), shards),
{
    let head = events.drop_last();
    assert forall|i: int| 0 <= i < head.len() implies {
        let walk = #[trigger] trail(start, head.take(i)).walk;
        let key = (walk.year, walk.month);
        &&& !walk.done()
        &&& match head[i] {
            MonthEvent::ShardExists => shards.contains(key),
            MonthEvent::ShardMissing => !shards.contains(key),
            _ => i > 0 && head[i - 1] is ShardMissing,
        }
    } by {
        assert(head.take(i) =~= events.take(i));
        assert(!trail(start, events.take(i)).walk.done());
    }
}

/// Whether every month of the range from a walk's own on has a shard.
pub open spec fn all_have_shards(start: WalkModel, shards: Set<(int, int)>) -> bool {
    forall|y: int, m: int|
        1 <= m <= 12 && month_start(start.year, start.month) <= #[trigger] month_start(y, m)
            < start.end ==> shards.contains((y, m))
}

/// A walk over months that all have a shard asks for nothing, writes nothing and
/// counts no rows.
pub proof fn law_stored_months_are_left_alone(
    start: WalkModel,
    events: Seq<MonthEvent>,
    shards: Set<(int, int)>,
)
    requires
        start.wf(),
        can_come(start, events, shards),
        all_have_shards(start, shards),
    ensures
        ({
            let end = trail(start, events);
            &&& end.requested.len() == 0
            &&& end.written.len() == 0
            &&& end.walk.total == start.total
            &&& end.walk.end == start.end
            &&& 1 <= end.walk.month <= 12
            &&& month_start(end.walk.year, end.walk.month) >= month_start(start.year, start.month)
            &&& forall|i: int| 0 <= i < events.len() ==> (#[trigger] events[i]) is ShardExists
        }),
    decreases events.len(),
{
    if events.len() > 0 {
        let head = events.drop_last();
        let n = events.len() - 1;
        assert(head =~= events.take(n));
        lemma_all_but_the_last_can_come(start, events, shards);
        law_stored_months_are_left_alone(start, head, shards);
        let walk = trail(start, events.take(n)).walk;
        assert(!walk.done());
        assert(shards.contains((walk.year, walk.month)));
        if n > 0 {
            assert(head[n - 1] is ShardExists);
            assert(events[n - 1] == head[n - 1]);
        }
        assert(events[n] is ShardExists);
        law_advancing_leads_to_the_next_month(walk.year, walk.month);
        assert forall|i: int| 0 <= i < events.len() implies (#[trigger] events[i]) is ShardExists by {
            if i < n {
                assert(events[i] == head[i]);
            }
        }
    }
}

/// A month that has a shard is never asked for nor written, whatever the rest of
/// the range has.
pub proof fn law_no_stored_month_is_touched(
    start: WalkModel,
    events: Seq<MonthEvent>,
    shards: Set<(int, int)>,
)
    requires
        can_come(start, events, shards),
    ensures
        forall|i: int|
            0 <= i < trail(start, events).requested.len() ==> !shards.contains(
                #[trigger] trail(start, events).requested[i],
            ),
        forall|i: int|
            0 <= i < trail(start, events).written.len() ==> !shards.contains(
                #[trigger] trail(start, events).written[i],
            ),
    decreases events.len(),
{
    if events.len() > 0 {
        let head = events.drop_last();
        let n = events.len() - 1;
        assert(head =~= events.take(n));
        lemma_all_but_the_last_can_come(start, events, shards);
        law_no_stored_month_is_touched(start, head, shards);
        let walk = trail(start, events.take(n)).walk;
        assert(!walk.done());
        if !(events[n] is ShardExists || events[n] is ShardMissing) {
            let before = trail(start, events.take(n - 1)).walk;
            assert(!before.done());
            assert(events.take(n).drop_last() =~= events.take(n - 1));
            assert(events.take(n).last() == events[n - 1]);
            assert(!shards.contains((before.year, before.month)));
        }
    }
}

/// The year behind the calendar begins behind every instant of it.
proof fn lemma_behind_calendar(month: int)
    requires
        1 <= month <= 12,
    ensures
        month_start(MAX_YEAR + 1, month) >= month_start(MAX_YEAR + 1, 1),
{
    if month > 1 {
        lemma_months_increase(MAX_YEAR + 1, 1, MAX_YEAR + 1, month);
        lemma_month_length(MAX_YEAR + 1, 1);
    }
}

/// The month of an instant of the calendar is one of the calendar.
proof fn lemma_calendar_bounds(ts: int, year: int, month: int)
    requires
        placeable(ts),
        in_month(ts, year, month),
    ensures
        MIN_YEAR <= year <= MAX_YEAR,
{
    if year < MIN_YEAR {
        lemma_months_increase(year, month, MIN_YEAR as int, 1);
    }
    if year > MAX_YEAR + 1 {
        lemma_months_increase(MAX_YEAR + 1, 1, year, month);
        lemma_month_length(MAX_YEAR + 1, 1);
    }
    if year == MAX_YEAR + 1 {
        lemma_behind_calendar(month);
    }
}

/// What is done on what is found out: a stored month is passed over at once, one
/// without a shard is asked for, one without rows is passed over after a pause,
/// and one with rows is written.
pub proof fn law_months_are_asked_for_and_written_once_found(walk: WalkModel, event: MonthEvent)
    ensures
        event is ShardExists ==> action_on(event) is GoOn,
        event is ShardMissing ==> action_on(event) is Request && walk.behind(event) == walk,
        event is NoAnswer ==> action_on(event) is Pause,
        event matches MonthEvent::Rows(rows) ==> {
            &&& rows@.len() > 0 ==> action_on(event) is Write
            &&& rows@.len() == 0 ==> action_on(event) is Pause
            &&& walk.behind(event).total == walk.total + rows@.len()
        },
        event is ShardExists || event is NoAnswer ==> walk.behind(event).total == walk.total,
        walk.behind(event).end == walk.end,
        !(event is ShardMissing) ==> {
            let next = walk.behind(event);
            &&& walk.month == 12 ==> next.year == walk.year + 1 && next.month == 1
            &&& walk.month != 12 ==> next.year == walk.year && next.month == walk.month + 1
        },
        walk.done() <==> walk.end <= month_start(walk.year, walk.month),
{
}

} // verus!
