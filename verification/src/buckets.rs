//! The bucket algorithm: records in the order of their time stamps are
//! gathered into buckets of a fixed width, counted from an anchor, and each
//! bucket gives one value.

use vstd::prelude::*;
use crate::error::StoreError;
use crate::key_value_store::{read_or_failure, Storable};
use crate::nearest::{ascending, key_ranks};
use crate::pooled_time_series::{GapFillMethod, Poolable, PoolingMethod, PoolingOptions};
use crate::time_series::Timestamp;

verus! {

broadcast use vstd::slice::group_slice_axioms;

/// The values of `records`, without their time stamps.
pub open spec fn values_of<V>(records: Seq<(Timestamp, V)>) -> Seq<V> {
    Seq::new(records.len(), |i: int| records[i].1)
}

/// The greatest of `values`; of several that are equally great, the last.
pub open spec fn highest<V: Storable>(values: Seq<V>) -> V
    decreases values.len(),
{
    if values.len() <= 1 {
        values[0]
    } else {
        let before = highest(values.drop_last());
        if values.last().rank() >= before.rank() {
            values.last()
        } else {
            before
        }
    }
}

/// The least of `values`; of several that are equally small, the first.
pub open spec fn lowest<V: Storable>(values: Seq<V>) -> V
    decreases values.len(),
{
    if values.len() <= 1 {
        values[0]
    } else {
        let before = lowest(values.drop_last());
        if values.last().rank() < before.rank() {
            values.last()
        } else {
            before
        }
    }
}

/// The highest of some values is one of them, and none is greater; the
/// lowest is one of them, and none is smaller.
pub proof fn lemma_highest_and_lowest<V: Storable>(values: Seq<V>)
    requires
        values.len() > 0,
    ensures
        values.contains(highest(values)),
        values.contains(lowest(values)),
        forall|i: int|
            0 <= i < values.len() ==> lowest(values).rank() <= (#[trigger] values[i]).rank()
                <= highest(values).rank(),
    decreases values.len(),
{
    if values.len() == 1 {
        assert(values[0] == highest(values));
        assert(values[0] == lowest(values));
    } else {
        let front = values.drop_last();
        lemma_highest_and_lowest(front);
        let high = choose|i: int| 0 <= i < front.len() && front[i] == highest(front);
        let low = choose|i: int| 0 <= i < front.len() && front[i] == lowest(front);
        assert(values[high] == front[high] && values[low] == front[low]);
        assert(values[values.len() - 1] == values.last());
        assert forall|i: int| 0 <= i < values.len() implies lowest(values).rank() <= (
        #[trigger] values[i]).rank() <= highest(values).rank() by {
            if i < front.len() {
                assert(values[i] == front[i]);
            }
        }
    }
}

/// The value of a bucket that starts at `start` and holds `records`, of which
/// there is one at least. `carry` is the value of the last record before the
/// bucket.
pub open spec fn bucket_value<V: Poolable>(
    options: PoolingOptions,
    start: Timestamp,
    records: Seq<(Timestamp, V)>,
    carry: V,
) -> V {
    match options.pooling {
        PoolingMethod::End => records.last().1,
        PoolingMethod::High => highest(values_of(records)),
        PoolingMethod::Low => lowest(values_of(records)),
        PoolingMethod::Mean => V::mean_of(values_of(records)),
        PoolingMethod::Start => if records[0].0 == start || options.gap_fill == Some(
            GapFillMethod::Default,
        ) {
            records[0].1
        } else {
            carry
        },
        PoolingMethod::Sum => V::sum_of(values_of(records)),
    }
}

/// What a bucket adds to the result when it is concluded: its value under its
/// start, or, for a bucket without records, what fills the gap, if anything.
pub open spec fn concluded<V: Poolable>(
    options: PoolingOptions,
    start: Timestamp,
    records: Seq<(Timestamp, V)>,
    carry: V,
) -> Seq<(Timestamp, V)> {
    if records.len() > 0 {
        seq![(start, bucket_value(options, start, records, carry))]
    } else {
        match options.gap_fill {
            Some(GapFillMethod::Default) => seq![(start, V::initial())],
            Some(GapFillMethod::Previous) => seq![(start, carry)],
            None => Seq::empty(),
        }
    }
}

/// What the empty buckets add that start at `start` or later and end at
/// `until` or before.
pub open spec fn gaps<V: Poolable>(
    options: PoolingOptions,
    start: Timestamp,
    until: Timestamp,
    carry: V,
) -> Seq<(Timestamp, V)>
    decreases until - start,
{
    if options.interval > 0 && start + options.interval <= until {
        concluded(options, start, Seq::empty(), carry) + gaps(
            options,
            (start + options.interval) as Timestamp,
            until,
            carry,
        )
    } else {
        Seq::empty()
    }
}

/// The start of the bucket that holds `until`, among the buckets counted from
/// `start`; `start` itself where `until` lies before it.
pub open spec fn rolled(interval: Timestamp, start: Timestamp, until: Timestamp) -> Timestamp
    decreases until - start,
{
    if interval > 0 && start + interval <= until {
        rolled(interval, (start + interval) as Timestamp, until)
    } else {
        start
    }
}

/// Where the gathering stands after some records: what has been concluded,
/// the bucket that is open, and the value to carry forward.
pub struct Gathering<V> {
    /// What the buckets concluded so far have added.
    pub values: Seq<(Timestamp, V)>,
    /// The start of the open bucket.
    pub start: Timestamp,
    /// The records of the open bucket.
    pub records: Seq<(Timestamp, V)>,
    /// The value of the last record of the last bucket that held any; before
    /// that, the value of the first record read.
    pub carry: V,
}

/// The gathering after the first record, `lead`: the open bucket starts at the
/// anchor and holds `lead` if `lead` lies exactly there.
pub open spec fn gathering_begins<V: Poolable>(
    lead: (Timestamp, V),
    start_time: Timestamp,
) -> Gathering<V> {
    Gathering {
        values: Seq::empty(),
        start: start_time,
        records: if lead.0 == start_time {
            seq![lead]
        } else {
            Seq::empty()
        },
        carry: lead.1,
    }
}

/// The gathering after one more record. A record at or after the end of the
/// open bucket concludes it, and the empty buckets before the record's own
/// with it; the record then opens its bucket. Any other record joins the open
/// bucket.
pub open spec fn gathering_takes<V: Poolable>(
    options: PoolingOptions,
    before: Gathering<V>,
    record: (Timestamp, V),
) -> Gathering<V> {
    if record.0 >= before.start + options.interval {
        let carry = if before.records.len() > 0 {
            before.records.last().1
        } else {
            before.carry
        };
        let next = (before.start + options.interval) as Timestamp;
        Gathering {
            values: before.values + concluded(options, before.start, before.records, before.carry)
                + gaps(options, next, record.0, carry),
            start: rolled(options.interval, next, record.0),
            records: seq![record],
            carry,
        }
    } else {
        Gathering {
            values: before.values,
            start: before.start,
            records: before.records.push(record),
            carry: before.carry,
        }
    }
}

/// The gathering after all of `records`, the first of which is the lead.
pub open spec fn gathering<V: Poolable>(
    options: PoolingOptions,
    start_time: Timestamp,
    records: Seq<(Timestamp, V)>,
) -> Gathering<V>
    decreases records.len(),
{
    if records.len() <= 1 {
        gathering_begins(records[0], start_time)
    } else {
        gathering_takes(options, gathering(options, start_time, records.drop_last()), records.last())
    }
}

/// The pooled values of `records`: what the buckets counted from `start_time`
/// add, one after the other, the last bucket included.
pub open spec fn pooled<V: Poolable>(
    options: PoolingOptions,
    start_time: Timestamp,
    records: Seq<(Timestamp, V)>,
) -> Seq<(Timestamp, V)> {
    let end = gathering(options, start_time, records);
    end.values + concluded(options, end.start, end.records, end.carry)
}

/// What `gather_buckets` comes to: buckets without a width are refused, and
/// without a first record there is nothing to read the first bucket from;
/// else `records` are pooled.
pub open spec fn gathered<V: Poolable>(
    options: PoolingOptions,
    start_time: Timestamp,
    records: Seq<(Timestamp, V)>,
) -> Result<Seq<(Timestamp, V)>, StoreError> {
    if options.interval == 0 {
        Err(StoreError::InvalidInterval)
    } else if records.len() == 0 {
        Err(StoreError::UnexpectedEof)
    } else {
        Ok(pooled(options, start_time, records))
    }
}

/// `t` is the start of one of the buckets of width `interval` counted from
/// `anchor`.
pub open spec fn is_bucket_start(anchor: int, interval: int, t: int) -> bool {
    t >= anchor && (t - anchor) % interval == 0
}

/// Every value of `values` stands under the start of a bucket before `bound`,
/// and the starts ascend.
pub open spec fn labelled_by_buckets<V>(
    values: Seq<(Timestamp, V)>,
    anchor: int,
    interval: int,
    bound: int,
) -> bool {
    &&& forall|i: int|
        0 <= i < values.len() ==> is_bucket_start(anchor, interval, (#[trigger] values[i]).0 as int)
            && values[i].0 < bound
    &&& forall|i: int, j: int|
        0 <= i < j < values.len() ==> (#[trigger] values[i]).0 < (#[trigger] values[j]).0
}

/// One bucket further is a bucket start again.
proof fn lemma_next_bucket_start(anchor: int, interval: int, t: int)
    requires
        interval > 0,
        is_bucket_start(anchor, interval, t),
    ensures
        is_bucket_start(anchor, interval, t + interval),
{
    vstd::arithmetic::div_mod::lemma_mod_add_multiples_vanish(t - anchor, interval);
}

/// Values labelled by buckets, followed by values labelled by later buckets,
/// are labelled by buckets.
proof fn lemma_labelled_join<V>(
    front: Seq<(Timestamp, V)>,
    back: Seq<(Timestamp, V)>,
    anchor: int,
    interval: int,
    middle: int,
    bound: int,
)
    requires
        labelled_by_buckets(front, anchor, interval, middle),
        labelled_by_buckets(back, anchor, interval, bound),
        forall|i: int| 0 <= i < back.len() ==> (#[trigger] back[i]).0 >= middle,
        middle <= bound,
    ensures
        labelled_by_buckets(front + back, anchor, interval, bound),
{
    let all = front + back;
    assert forall|i: int| 0 <= i < all.len() implies is_bucket_start(
        anchor,
        interval,
        (#[trigger] all[i]).0 as int,
    ) && all[i].0 < bound by {
        if i < front.len() {
            assert(all[i] == front[i]);
        } else {
            assert(all[i] == back[i - front.len()]);
        }
    }
    assert forall|i: int, j: int| 0 <= i < j < all.len() implies (#[trigger] all[i]).0 < (
    #[trigger] all[j]).0 by {
        if i < front.len() {
            assert(all[i] == front[i]);
        } else {
            assert(all[i] == back[i - front.len()]);
        }
        if j < front.len() {
            assert(all[j] == front[j]);
        } else {
            assert(all[j] == back[j - front.len()]);
        }
    }
}

/// What a concluded bucket adds stands under its start.
proof fn lemma_concluded_label<V: Poolable>(
    options: PoolingOptions,
    start: Timestamp,
    records: Seq<(Timestamp, V)>,
    carry: V,
    anchor: int,
)
    requires
        options.interval > 0,
        is_bucket_start(anchor, options.interval as int, start as int),
    ensures
        labelled_by_buckets(
            concluded(options, start, records, carry),
            anchor,
            options.interval as int,
            start + 1,
        ),
        forall|i: int|
            0 <= i < concluded(options, start, records, carry).len() ==> (#[trigger] concluded(
                options,
                start,
                records,
                carry,
            )[i]).0 >= start,
{
}

/// What empty buckets add stands under their starts, which ascend up to the
/// bucket that the rolling ends in.
proof fn lemma_gaps_labels<V: Poolable>(
    options: PoolingOptions,
    start: Timestamp,
    until: Timestamp,
    carry: V,
    anchor: int,
)
    requires
        options.interval > 0,
        is_bucket_start(anchor, options.interval as int, start as int),
        start <= until,
    ensures
        labelled_by_buckets(
            gaps(options, start, until, carry),
            anchor,
            options.interval as int,
            rolled(options.interval, start, until) as int,
        ),
        forall|i: int|
            0 <= i < gaps(options, start, until, carry).len() ==> (#[trigger] gaps(
                options,
                start,
                until,
                carry,
            )[i]).0 >= start,
        is_bucket_start(
            anchor,
            options.interval as int,
            rolled(options.interval, start, until) as int,
        ),
        start <= rolled(options.interval, start, until) <= until,
    decreases until - start,
{
    let w = options.interval;
    if start + w <= until {
        let next = (start + w) as Timestamp;
        lemma_next_bucket_start(anchor, w as int, start as int);
        lemma_gaps_labels(options, next, until, carry, anchor);
        lemma_concluded_label(options, start, Seq::<(Timestamp, V)>::empty(), carry, anchor);
        lemma_labelled_join(
            concluded(options, start, Seq::<(Timestamp, V)>::empty(), carry),
            gaps(options, next, until, carry),
            anchor,
            w as int,
            start + 1,
            rolled(w, start, until) as int,
        );
        let all = gaps(options, start, until, carry);
        let head = concluded(options, start, Seq::<(Timestamp, V)>::empty(), carry);
        let tail = gaps(options, next, until, carry);
        assert forall|i: int| 0 <= i < all.len() implies (#[trigger] all[i]).0 >= start by {
            if i < head.len() {
                assert(all[i] == head[i]);
            } else {
                assert(all[i] == tail[i - head.len()]);
            }
        }
    }
}

/// Where the gathering stands, everything given out so far stands under the
/// start of a bucket before the open one, and these starts ascend.
proof fn lemma_gathering_labels<V: Poolable>(
    options: PoolingOptions,
    start_time: Timestamp,
    records: Seq<(Timestamp, V)>,
)
    requires
        records.len() > 0,
        options.interval > 0,
    ensures
        is_bucket_start(
            start_time as int,
            options.interval as int,
            gathering(options, start_time, records).start as int,
        ),
        labelled_by_buckets(
            gathering(options, start_time, records).values,
            start_time as int,
            options.interval as int,
            gathering(options, start_time, records).start as int,
        ),
    decreases records.len(),
{
    let anchor = start_time as int;
    let w = options.interval;
    assert(0int % (w as int) == 0) by {
        vstd::arithmetic::div_mod::lemma_small_mod(0, w as nat);
    }
    if records.len() > 1 {
        let before = gathering(options, start_time, records.drop_last());
        let record = records.last();
        lemma_gathering_labels(options, start_time, records.drop_last());
        if record.0 >= before.start + w {
            let carry = if before.records.len() > 0 {
                before.records.last().1
            } else {
                before.carry
            };
            let next = (before.start + w) as Timestamp;
            let closing = concluded(options, before.start, before.records, before.carry);
            let fills = gaps(options, next, record.0, carry);
            let after = rolled(w, next, record.0);
            lemma_next_bucket_start(anchor, w as int, before.start as int);
            lemma_concluded_label(options, before.start, before.records, before.carry, anchor);
            lemma_gaps_labels(options, next, record.0, carry, anchor);
            lemma_labelled_join(
                before.values,
                closing,
                anchor,
                w as int,
                before.start as int,
                before.start + 1,
            );
            lemma_labelled_join(
                before.values + closing,
                fills,
                anchor,
                w as int,
                before.start + 1,
                after as int,
            );
        }
    }
}

/// Every pooled value stands under the start of one of the buckets counted
/// from the anchor, and the values come in the order of their buckets, one
/// for a bucket at most.
pub proof fn lemma_pooled_labels<V: Poolable>(
    options: PoolingOptions,
    start_time: Timestamp,
    records: Seq<(Timestamp, V)>,
)
    requires
        records.len() > 0,
        options.interval > 0,
    ensures
        forall|i: int|
            0 <= i < pooled(options, start_time, records).len() ==> is_bucket_start(
                start_time as int,
                options.interval as int,
                (#[trigger] pooled(options, start_time, records)[i]).0 as int,
            ),
        forall|i: int, j: int|
            0 <= i < j < pooled(options, start_time, records).len() ==> (#[trigger] pooled(
                options,
                start_time,
                records,
            )[i]).0 < (#[trigger] pooled(options, start_time, records)[j]).0,
{
    let end = gathering(options, start_time, records);
    lemma_gathering_labels(options, start_time, records);
    lemma_concluded_label(options, end.start, end.records, end.carry, start_time as int);
    lemma_labelled_join(
        end.values,
        concluded(options, end.start, end.records, end.carry),
        start_time as int,
        options.interval as int,
        end.start as int,
        end.start + 1,
    );
}

/// Without a way to fill gaps, empty buckets add nothing.
pub proof fn lemma_gaps_unfilled<V: Poolable>(
    options: PoolingOptions,
    start: Timestamp,
    until: Timestamp,
    carry: V,
)
    requires
        options.gap_fill is None,
    ensures
        gaps(options, start, until, carry) == Seq::<(Timestamp, V)>::empty(),
    decreases until - start,
{
    if options.interval > 0 && start + options.interval <= until {
        lemma_gaps_unfilled(options, (start + options.interval) as Timestamp, until, carry);
        assert(Seq::<(Timestamp, V)>::empty() + Seq::<(Timestamp, V)>::empty() =~= Seq::<
            (Timestamp, V),
        >::empty());
    }
}

/// Buckets of width one roll forward to the very time stamp asked for.
pub proof fn lemma_rolled_by_one(start: Timestamp, until: Timestamp)
    requires
        start <= until,
    ensures
        rolled(1, start, until) == until,
    decreases until - start,
{
    if start < until {
        lemma_rolled_by_one((start + 1) as Timestamp, until);
    }
}

/// Where the gathering stands after records whose time stamps ascend, with
/// buckets of width one that give their last value and leave gaps unfilled:
/// every record but the last has been given out as it is, and the last one
/// is alone in the open bucket, which starts at its time stamp.
pub proof fn lemma_unit_gathering<V: Poolable>(
    options: PoolingOptions,
    records: Seq<(Timestamp, V)>,
)
    requires
        records.len() > 0,
        ascending(key_ranks(records)),
        options.interval == 1,
        options.pooling == PoolingMethod::End,
        options.gap_fill is None,
    ensures
        gathering(options, records[0].0, records).values == records.drop_last(),
        gathering(options, records[0].0, records).start == records.last().0,
        gathering(options, records[0].0, records).records == seq![records.last()],
    decreases records.len(),
{
    let keys = key_ranks(records);
    if records.len() == 1 {
        assert(records.drop_last() =~= Seq::<(Timestamp, V)>::empty());
    } else {
        let front = records.drop_last();
        let last = records.last();
        let n = records.len() as int;
        assert(ascending(key_ranks(front))) by {
            assert forall|i: int, j: int| 0 <= i < j < front.len() implies key_ranks(front)[i]
                < key_ranks(front)[j] by {
                assert(key_ranks(front)[i] == keys[i] && key_ranks(front)[j] == keys[j]);
            }
        }
        assert(front[0] == records[0]);
        lemma_unit_gathering(options, front);
        let before = gathering(options, records[0].0, front);
        assert(keys[n - 2] < keys[n - 1]);
        assert(front.last() == records[n - 2]);
        assert(before.start == records[n - 2].0);
        assert(last.0 >= before.start + 1);
        let next = (before.start + 1) as Timestamp;
        lemma_gaps_unfilled(options, next, last.0, before.records.last().1);
        lemma_rolled_by_one(next, last.0);
        let after = gathering_takes(options, before, last);
        assert(concluded(options, before.start, before.records, before.carry) =~= seq![
            front.last(),
        ]);
        assert(after.values =~= front);
    }
}

/// Pooling records whose time stamps ascend into buckets of width one, each
/// with its last value and with gaps left unfilled, from the first time stamp
/// on, gives the records back as they are.
pub proof fn lemma_unit_pooling_is_identity<V: Poolable>(
    options: PoolingOptions,
    records: Seq<(Timestamp, V)>,
)
    requires
        records.len() > 0,
        ascending(key_ranks(records)),
        options.interval == 1,
        options.pooling == PoolingMethod::End,
        options.gap_fill is None,
    ensures
        pooled(options, records[0].0, records) == records,
{
    lemma_unit_gathering(options, records);
    let end = gathering(options, records[0].0, records);
    assert(concluded(options, end.start, end.records, end.carry) =~= seq![records.last()]);
    assert(records.drop_last() + seq![records.last()] =~= records);
}

/// The greatest value of a bucket.
fn highest_value<V: Poolable>(records: &Vec<(Timestamp, V)>) -> (value: V)
    requires
        records@.len() > 0,
    ensures
        value == highest(values_of(records@)),
{
    let mut best: V = records[0].1;
    let mut i: usize = 1;
    assert(values_of(records@).subrange(0, 1).len() == 1);
    while i < records.len()
        invariant
            1 <= i <= records@.len(),
            best == highest(values_of(records@).subrange(0, i as int)),
        decreases records@.len() - i,
    {
        let candidate: V = records[i].1;
        proof {
            let longer = values_of(records@).subrange(0, i + 1);
            assert(longer.drop_last() =~= values_of(records@).subrange(0, i as int));
            assert(longer.last() == candidate);
        }
        if !candidate.precedes(best) {
            best = candidate;
        }
        i += 1;
    }
    assert(values_of(records@).subrange(0, i as int) =~= values_of(records@));
    best
}

/// The least value of a bucket.
fn lowest_value<V: Poolable>(records: &Vec<(Timestamp, V)>) -> (value: V)
    requires
        records@.len() > 0,
    ensures
        value == lowest(values_of(records@)),
{
    let mut best: V = records[0].1;
    let mut i: usize = 1;
    assert(values_of(records@).subrange(0, 1).len() == 1);
    while i < records.len()
        invariant
            1 <= i <= records@.len(),
            best == lowest(values_of(records@).subrange(0, i as int)),
        decreases records@.len() - i,
    {
        let candidate: V = records[i].1;
        proof {
            let longer = values_of(records@).subrange(0, i + 1);
            assert(longer.drop_last() =~= values_of(records@).subrange(0, i as int));
            assert(longer.last() == candidate);
        }
        if candidate.precedes(best) {
            best = candidate;
        }
        i += 1;
    }
    assert(values_of(records@).subrange(0, i as int) =~= values_of(records@));
    best
}

/// The values of a bucket, without their time stamps.
fn bucket_values<V: Poolable>(records: &Vec<(Timestamp, V)>) -> (values: Vec<V>)
    ensures
        values@ == values_of(records@),
{
    let mut values: Vec<V> = Vec::new();
    let mut i: usize = 0;
    while i < records.len()
        invariant
            i <= records@.len(),
            values@ == values_of(records@).subrange(0, i as int),
        decreases records@.len() - i,
    {
        values.push(records[i].1);
        i += 1;
        assert(values@ =~= values_of(records@).subrange(0, i as int));
    }
    assert(values_of(records@).subrange(0, i as int) =~= values_of(records@));
    values
}

/// Adds to `values` what the bucket that starts at `start` and holds
/// `records` comes to.
pub fn conclude_bucket<V: Poolable>(
    records: &Vec<(Timestamp, V)>,
    start: Timestamp,
    values: &mut Vec<(Timestamp, V)>,
    last_record: (Timestamp, V),
    pooling_options: PoolingOptions,
)
    ensures
        final(values)@ == old(values)@ + concluded(
            pooling_options,
            start,
            records@,
            last_record.1,
        ),
{
    if records.len() > 0 {
        let value: V = match pooling_options.pooling {
            PoolingMethod::End => records[records.len() - 1].1,
            PoolingMethod::High => highest_value(records),
            PoolingMethod::Low => lowest_value(records),
            PoolingMethod::Mean => {
                let plain = bucket_values(records);
                V::mean(plain.as_slice())
            },
            PoolingMethod::Start => {
                let first_wins: bool = match pooling_options.gap_fill {
                    Some(GapFillMethod::Default) => true,
                    _ => records[0].0 == start,
                };
                if first_wins {
                    records[0].1
                } else {
                    last_record.1
                }
            },
            PoolingMethod::Sum => {
                let plain = bucket_values(records);
                V::sum(plain.as_slice())
            },
        };
        values.push((start, value));
        assert(values@ =~= old(values)@ + seq![(start, value)]);
    } else {
        match pooling_options.gap_fill {
            Some(GapFillMethod::Default) => {
                values.push((start, V::default_value()));
                assert(values@ =~= old(values)@ + seq![(start, V::initial())]);
            },
            Some(GapFillMethod::Previous) => {
                values.push((start, last_record.1));
                assert(values@ =~= old(values)@ + seq![(start, last_record.1)]);
            },
            None => {
                assert(values@ =~= old(values)@ + Seq::<(Timestamp, V)>::empty());
            },
        }
    }
}

/// Pools `records`, which are in the order in which they were read, into
/// buckets of `pooling_options.interval`, the first of which starts at
/// `start_time`.
///
/// The first record opens the first bucket only if it lies exactly at
/// `start_time`; otherwise it is the record before the first bucket, whose
/// value is carried forward.
///
/// An interval of zero is refused with `InvalidInterval`, whatever the
/// records; no record at all is `UnexpectedEof`.
pub fn gather_buckets<V: Poolable>(
    records: &[(Timestamp, V)],
    pooling_options: PoolingOptions,
    start_time: Timestamp,
) -> (r: Result<Vec<(Timestamp, V)>, StoreError>)
    ensures
        read_or_failure(r) == gathered(pooling_options, start_time, records@),
{
    let interval: Timestamp = pooling_options.interval;
    if interval == 0 {
        return Err(StoreError::InvalidInterval);
    }
    if records.len() == 0 {
        return Err(StoreError::UnexpectedEof);
    }
    let mut values: Vec<(Timestamp, V)> = Vec::new();
    let first_record: (Timestamp, V) = records[0];
    let mut bucket: Vec<(Timestamp, V)> = Vec::new();
    if first_record.0 == start_time {
        bucket.push(first_record);
    }
    let mut start: Timestamp = start_time;
    let mut last_record: (Timestamp, V) = first_record;
    let mut i: usize = 1;
    proof {
        assert(records@.subrange(0, 1).len() == 1);
        assert(records@.subrange(0, 1)[0] == records@[0]);
        assert(bucket@ =~= gathering_begins(first_record, start_time).records);
    }
    while i < records.len()
        invariant
            1 <= i <= records@.len(),
            interval == pooling_options.interval,
            interval > 0,
            gathering(pooling_options, start_time, records@.subrange(0, i as int)) == (Gathering {
                values: values@,
                start,
                records: bucket@,
                carry: last_record.1,
            }),
        decreases records@.len() - i,
    {
        let record: (Timestamp, V) = records[i];
        let ghost before = gathering(pooling_options, start_time, records@.subrange(0, i as int));
        proof {
            let longer = records@.subrange(0, i + 1);
            assert(longer.drop_last() =~= records@.subrange(0, i as int));
            assert(longer.last() == record);
        }
        // If the record we just read doesn't fit in this bucket,
        if record.0 >= start && record.0 - start >= interval {
            // end the current bucket and start new ones until the record fits.
            conclude_bucket(&bucket, start, &mut values, last_record, pooling_options);
            if bucket.len() > 0 {
                last_record = bucket[bucket.len() - 1];
                bucket.clear();
            }
            start = start + interval;
            let ghost next = start;
            let ghost closed = values@;
            while record.0 - start >= interval
                invariant
                    interval == pooling_options.interval,
                    interval > 0,
                    next <= start <= record.0,
                    bucket@.len() == 0,
                    closed + gaps(pooling_options, next, record.0, last_record.1) == values@
                        + gaps(pooling_options, start, record.0, last_record.1),
                    rolled(interval, next, record.0) == rolled(interval, start, record.0),
                decreases record.0 - start,
            {
                let ghost rest = gaps(
                    pooling_options,
                    (start + interval) as Timestamp,
                    record.0,
                    last_record.1,
                );
                let ghost filled = values@;
                conclude_bucket(&bucket, start, &mut values, last_record, pooling_options);
                proof {
                    let gap = concluded(pooling_options, start, bucket@, last_record.1);
                    assert(bucket@ =~= Seq::<(Timestamp, V)>::empty());
                    assert(filled + (gap + rest) =~= (filled + gap) + rest);
                }
                start = start + interval;
            }
            bucket.push(record);
            proof {
                assert(gaps(pooling_options, start, record.0, last_record.1) =~= Seq::<
                    (Timestamp, V),
                >::empty());
                assert(values@ =~= closed + gaps(pooling_options, next, record.0, last_record.1));
                assert(bucket@ =~= seq![record]);
            }
        } else {
            bucket.push(record);
        }
        i += 1;
    }
    assert(records@.subrange(0, i as int) =~= records@);
    conclude_bucket(&bucket, start, &mut values, last_record, pooling_options);
    Ok(values)
}

} // verus!
