//! What a whole run from trades to labelled rows keeps to.

use vstd::prelude::*;

use crate::calendar::{earlier_month, month_of, placeable};
use crate::training::bucket::{
    bucket_middle, law_ticks_follow_their_buckets, BucketSums, BucketTrade,
};
use crate::training::feed::{
    all_buckets, bucket_of, fed, fresh_feed, is_closed, law_buckets_divide_the_stream,
    stream_ascends, trades_in, BucketModel, TimedTrade,
};
use crate::training::labeller::Tick;
use crate::training::pipeline::PipelineModel;
use crate::training::shards::{
    all_add_up, law_a_written_row_is_counted_once, law_each_month_is_opened_once,
    law_labels_add_up_to_rows, law_writing_keeps_counts_adding_up, months_in_order, total_counts,
    writes_row, ShardStats, WriterModel,
};

verus! {

// ── Buckets with volume ─────────────────────────────────────────────────────

/// What arithmetic makes of the trades of a bucket.
pub type Sums = spec_fn(Seq<BucketTrade>) -> BucketSums;

/// Whether trades have volume, so that their bucket makes a tick.
pub open spec fn has_volume(sums: Sums, trades: Seq<BucketTrade>) -> bool {
    !sums(trades).volume.at_most_zero()
}

/// The buckets that have volume, in order.
pub open spec fn with_volume(buckets: Seq<BucketModel>, sums: Sums) -> Seq<BucketModel>
    decreases buckets.len(),
{
    if buckets.len() == 0 {
        Seq::empty()
    } else {
        let before = with_volume(buckets.drop_last(), sums);
        if has_volume(sums, buckets.last().trades) {
            before.push(buckets.last())
        } else {
            before
        }
    }
}

/// Whether a trade of a stream falls into a bucket.
pub open spec fn has_trade(stream: Seq<TimedTrade>, width: int, id: int) -> bool {
    exists|k: int|
        0 <= k < stream.len() && bucket_of((#[trigger] stream[k]).ts as int, width) == id
}

/// The buckets that trades of a stream fall into with volume.
pub open spec fn ids_with_volume(stream: Seq<TimedTrade>, width: int, sums: Sums) -> Set<int> {
    Set::new(
        |id: int|
            has_trade(stream, width, id) && has_volume(sums, trades_in(stream, width, id)),
    )
}

/// Whether buckets stand in the order of time, each once.
pub open spec fn ids_ascend(buckets: Seq<BucketModel>) -> bool {
    forall|i: int, j: int|
        0 <= i < j < buckets.len() ==> (#[trigger] buckets[i]).id < (#[trigger] buckets[j]).id
}

proof fn lemma_with_volume(buckets: Seq<BucketModel>, sums: Sums)
    requires
        ids_ascend(buckets),
    ensures
        ids_ascend(with_volume(buckets, sums)),
        forall|b: BucketModel|
            with_volume(buckets, sums).contains(b) <==> buckets.contains(b) && has_volume(
                sums,
                b.trades,
            ),
    decreases buckets.len(),
{
    if buckets.len() > 0 {
        let head = buckets.drop_last();
        let last = buckets.last();
        let (old, new) = (with_volume(head, sums), with_volume(buckets, sums));
        assert forall|i: int| 0 <= i < head.len() implies #[trigger] head[i] == buckets[i] by {}
        lemma_with_volume(head, sums);
        assert(buckets[buckets.len() - 1] == last);
        assert forall|i: int, j: int| 0 <= i < j < new.len() implies (#[trigger] new[i]).id < (
        #[trigger] new[j]).id by {
            if j >= old.len() {
                assert(old[i] == new[i]);
                assert(old.contains(new[i]));
                assert(head.contains(new[i]));
                let k = choose|k: int| 0 <= k < head.len() && head[k] == new[i];
                assert(buckets[k].id < buckets[buckets.len() - 1].id);
            }
        }
        assert forall|b: BucketModel|
            new.contains(b) <==> buckets.contains(b) && has_volume(sums, b.trades) by {
            if new.contains(b) {
                let i = choose|i: int| 0 <= i < new.len() && new[i] == b;
                if i < old.len() {
                    assert(old[i] == b);
                    assert(head.contains(b));
                    let k = choose|k: int| 0 <= k < head.len() && head[k] == b;
                    assert(buckets[k] == b);
                } else {
                    assert(buckets[buckets.len() - 1] == b);
                }
            }
            if buckets.contains(b) && has_volume(sums, b.trades) {
                let k = choose|k: int| 0 <= k < buckets.len() && buckets[k] == b;
                if k < head.len() {
                    assert(head[k] == b);
                    assert(head.contains(b));
                    assert(old.contains(b));
                    let i = choose|i: int| 0 <= i < old.len() && old[i] == b;
                    assert(new[i] == b);
                } else {
                    assert(new[new.len() - 1] == b);
                }
            }
        }
    } else {
        assert(forall|b: BucketModel| !buckets.contains(b));
        assert(forall|b: BucketModel| !with_volume(buckets, sums).contains(b));
    }
}

proof fn lemma_trade_in_bucket(stream: Seq<TimedTrade>, width: int, id: int)
    requires
        trades_in(stream, width, id).len() > 0,
    ensures
        has_trade(stream, width, id),
    decreases stream.len(),
{
    let head = stream.drop_last();
    if bucket_of(stream.last().ts as int, width) == id {
        assert(bucket_of(stream[stream.len() - 1].ts as int, width) == id);
    } else {
        lemma_trade_in_bucket(head, width, id);
        let k = choose|k: int|
            0 <= k < head.len() && bucket_of((#[trigger] head[k]).ts as int, width) == id;
        assert(bucket_of(stream[k].ts as int, width) == id);
    }
}

/// There are as many buckets with volume as there are bucket numbers that trades
/// fall into with volume.
pub proof fn law_each_bucket_with_volume_is_made_once(
    stream: Seq<TimedTrade>,
    width: int,
    sums: Sums,
)
    requires
        width > 0,
        stream_ascends(stream),
    ensures
        ids_ascend(with_volume(all_buckets(width, stream), sums)),
        ids_with_volume(stream, width, sums).finite(),
        ids_with_volume(stream, width, sums).len() == with_volume(
            all_buckets(width, stream),
            sums,
        ).len(),
{
    law_buckets_divide_the_stream(width, stream);
    let (feed, closed) = fed(fresh_feed(width), stream);
    let buckets = all_buckets(width, stream);
    let made = with_volume(buckets, sums);
    assert(ids_ascend(buckets)) by {
        assert forall|i: int, j: int| 0 <= i < j < buckets.len() implies (#[trigger] buckets[i]).id
            < (#[trigger] buckets[j]).id by {
            assert(buckets[i] == closed[i]);
            if j < closed.len() {
                assert(buckets[j] == closed[j]);
            }
        }
    }
    lemma_with_volume(buckets, sums);
    let ids = made.map_values(|b: BucketModel| b.id);
    assert(ids.no_duplicates()) by {
        assert forall|i: int, j: int| 0 <= i < ids.len() && 0 <= j < ids.len() && i != j implies
            ids[i] != ids[j] by {
            assert(ids[i] == made[i].id && ids[j] == made[j].id);
            if i < j {
                assert(made[i].id < made[j].id);
            } else {
                assert(made[j].id < made[i].id);
            }
        }
    }
    ids.unique_seq_to_set();
    vstd::seq_lib::seq_to_set_is_finite(ids);
    let wanted = ids_with_volume(stream, width, sums);
    assert forall|id: int| wanted.contains(id) <==> ids.to_set().contains(id) by {
        if wanted.contains(id) {
            let k = choose|k: int|
                0 <= k < stream.len() && bucket_of((#[trigger] stream[k]).ts as int, width) == id;
            assert(feed.current == Some(id) || is_closed(closed, id));
            let b = BucketModel { id, trades: trades_in(stream, width, id) };
            if feed.current == Some(id) {
                assert(buckets[buckets.len() - 1] == b);
            } else {
                let i = choose|i: int| 0 <= i < closed.len() && (#[trigger] closed[i]).id == id;
                assert(buckets[i] == closed[i]);
                assert(closed[i] == b);
            }
            assert(buckets.contains(b));
            assert(made.contains(b));
            let j = choose|j: int| 0 <= j < made.len() && made[j] == b;
            assert(ids[j] == id);
        }
        if ids.to_set().contains(id) {
            let j = choose|j: int| 0 <= j < ids.len() && ids[j] == id;
            let b = made[j];
            assert(made.contains(b));
            assert(buckets.contains(b));
            let i = choose|i: int| 0 <= i < buckets.len() && buckets[i] == b;
            if i < closed.len() {
                assert(closed[i] == b);
            }
            assert(b.trades == trades_in(stream, width, id));
            lemma_trade_in_bucket(stream, width, id);
        }
    }
    assert(wanted =~= ids.to_set());
}

// ── Whole runs ──────────────────────────────────────────────────────────────

/// Whether ticks are those of buckets, one each, at the middle of it.
pub open spec fn are_ticks_of(ticks: Seq<Tick>, buckets: Seq<BucketModel>, width: int) -> bool {
    &&& ticks.len() == buckets.len()
    &&& forall|i: int|
        0 <= i < ticks.len() ==> (#[trigger] ticks[i]).ts_micros == bucket_middle(
            buckets[i].id,
            width,
        )
}

/// The states of the files while rows were written, with the labels of the rows
/// and the names of the files opened.
pub struct Writing {
    pub states: Seq<WriterModel>,
    pub labels: Seq<u8>,
    pub opened: Seq<Option<String>>,
}

/// Whether one row was written for each of the ticks, in their order, from no
/// files at all on.
pub open spec fn wrote(w: Writing, rows: Seq<Tick>) -> bool {
    &&& w.states.len() == rows.len() + 1
    &&& w.labels.len() == rows.len()
    &&& w.opened.len() == rows.len()
    &&& w.states[0] == (WriterModel { current: None, closed: Seq::empty() })
    &&& forall|i: int|
        0 <= i < rows.len() ==> {
            let ts = (#[trigger] rows[i]).ts_micros;
            &&& placeable(ts as int)
            &&& w.labels[i] <= 2
            &&& writes_row(w.states[i], w.states[i + 1], ts, w.labels[i], w.opened[i])
        }
}

/// Whether a month has rows, every row one of the three labels, and the first and
/// the last row lie in it in this order.
pub open spec fn is_sound(s: ShardStats) -> bool {
    &&& s.rows > 0
    &&& s.counts().add_up()
    &&& s.first_ts_micros matches Some(a) && s.last_ts_micros matches Some(b) && a <= b
        && month_of(a as int) == s.key() && month_of(b as int) == s.key()
}

/// Whether months stand in order, each once.
pub open spec fn keys_ascend(shards: Seq<ShardStats>) -> bool {
    forall|i: int, j: int|
        0 <= i < j < shards.len() ==> earlier_month(
            (#[trigger] shards[i]).key(),
            (#[trigger] shards[j]).key(),
        )
}

/// Whether all months are sound.
spec fn all_sound(m: WriterModel) -> bool {
    &&& forall|i: int| 0 <= i < m.closed.len() ==> is_sound(#[trigger] m.closed[i])
    &&& m.current matches Some(s) ==> is_sound(s)
}

proof fn lemma_written_so_far(w: Writing, rows: Seq<Tick>, n: int)
    requires
        wrote(w, rows),
        forall|i: int, j: int|
            0 <= i < j < rows.len() ==> (#[trigger] rows[i]).ts_micros <= (
            #[trigger] rows[j]).ts_micros,
        0 <= n <= rows.len(),
    ensures
        months_in_order(w.states[n]),
        all_add_up(w.states[n]),
        all_sound(w.states[n]),
        total_counts(w.states[n].shards()).rows == n,
        n > 0 ==> (w.states[n].current matches Some(s) && s.last_ts_micros == Some(
            rows[n - 1].ts_micros,
        )),
        n == 0 ==> w.states[n].current is None,
    decreases n,
{
    if n > 0 {
        lemma_written_so_far(w, rows, n - 1);
        let (before, after) = (w.states[n - 1], w.states[n]);
        let ts = rows[n - 1].ts_micros;
        let (label, opened) = (w.labels[n - 1], w.opened[n - 1]);
        assert(writes_row(before, after, ts, label, opened));
        if n > 1 {
            assert(rows[n - 2].ts_micros <= rows[n - 1].ts_micros);
        }
        law_each_month_is_opened_once(before, after, ts, label, opened);
        law_writing_keeps_counts_adding_up(before, after, ts, label, opened);
        law_a_written_row_is_counted_once(before, after, ts, label, opened);
    } else {
        assert(w.states[0].shards() =~= Seq::<ShardStats>::empty());
    }
}

/// There is one labelled row for every bucket with volume but the last ones that
/// a label window holds, and none where there are no more than those. Every month
/// that is told of has rows, the counts of its labels add up to them, its first
/// and last row lie in it, and the months stand in order.
pub proof fn law_rows_are_the_buckets_less_the_window(
    p: PipelineModel,
    stream: Seq<TimedTrade>,
    width: int,
    sums: Sums,
    writing: Writing,
)
    requires
        width > 0,
        stream_ascends(stream),
        p.labeller.label_buckets >= 1,
        are_ticks_of(p.labeller.ticks, with_volume(all_buckets(width, stream), sums), width),
        wrote(writing, p.labeller.ticks.take(p.labeller.labelled())),
        p.writer == writing.states.last(),
    ensures
        ({
            let made = ids_with_volume(stream, width, sums).len();
            let shards = p.writer.shards();
            &&& total_counts(shards).rows == if made > p.labeller.label_buckets {
                made - p.labeller.label_buckets
            } else {
                0
            }
            &&& total_counts(shards).add_up()
            &&& forall|i: int| 0 <= i < shards.len() ==> is_sound(#[trigger] shards[i])
            &&& keys_ascend(shards)
        }),
{
    let buckets = with_volume(all_buckets(width, stream), sums);
    let ticks = p.labeller.ticks;
    let rows = ticks.take(p.labeller.labelled());
    law_each_bucket_with_volume_is_made_once(stream, width, sums);
    assert forall|i: int, j: int| 0 <= i < j < rows.len() implies (#[trigger] rows[i]).ts_micros
        <= (#[trigger] rows[j]).ts_micros by {
        assert(ticks[i].ts_micros == bucket_middle(buckets[i].id, width));
        assert(ticks[j].ts_micros == bucket_middle(buckets[j].id, width));
        law_ticks_follow_their_buckets(buckets[i].id, buckets[j].id, width);
    }
    lemma_written_so_far(writing, rows, rows.len() as int);
    let m = p.writer;
    let shards = m.shards();
    assert(m == writing.states[rows.len() as int]);
    assert forall|i: int| 0 <= i < shards.len() implies is_sound(#[trigger] shards[i]) by {
        if i < m.closed.len() {
            assert(shards[i] == m.closed[i]);
        }
    }
    assert forall|i: int, j: int| 0 <= i < j < shards.len() implies earlier_month(
        (#[trigger] shards[i]).key(),
        (#[trigger] shards[j]).key(),
    ) by {
        assert(shards[i] == m.closed[i]);
        if j < m.closed.len() {
            assert(shards[j] == m.closed[j]);
        }
    }
    law_labels_add_up_to_rows(shards);
}

} // verus!
