//! What pooling comes to, said bucket by bucket: for records in the order of
//! their time stamps, each bucket holds the records of its window, and the
//! value carried into it is that of the last record before it.

use vstd::prelude::*;
use crate::buckets::{
    concluded, gaps, gathering, gathering_takes, lemma_gaps_unfilled, lemma_rolled_by_one,
    pooled, rolled, Gathering,
};
use crate::nearest::{ascending, below, key_ranks, lemma_below};
use crate::pooled_time_series::{Poolable, PoolingMethod, PoolingOptions};
use crate::time_series::{window, Timestamp};

verus! {

/// The value that is carried into a bucket that starts at `label`: that of
/// the last record before `label`; where there is none, that of the first
/// record.
pub open spec fn carried_into<V: Poolable>(records: Seq<(Timestamp, V)>, label: int) -> V {
    let before = below(key_ranks(records), label);
    if before > 0 {
        records[before - 1].1
    } else {
        records[0].1
    }
}

/// What the bucket of number `k` gives: the value of the records of its
/// window, or what fills the gap.
pub open spec fn bucket_output<V: Poolable>(
    options: PoolingOptions,
    anchor: Timestamp,
    records: Seq<(Timestamp, V)>,
    k: nat,
) -> Seq<(Timestamp, V)> {
    let label = anchor + k * options.interval;
    concluded(
        options,
        label as Timestamp,
        window(records, label, label + options.interval),
        carried_into(records, label),
    )
}

/// What the first `count` buckets give, one after the other.
pub open spec fn buckets_output<V: Poolable>(
    options: PoolingOptions,
    anchor: Timestamp,
    records: Seq<(Timestamp, V)>,
    count: nat,
) -> Seq<(Timestamp, V)>
    decreases count,
{
    if count == 0 {
        Seq::empty()
    } else {
        buckets_output(options, anchor, records, (count - 1) as nat) + bucket_output(
            options,
            anchor,
            records,
            (count - 1) as nat,
        )
    }
}

/// The number of the bucket that holds `t`; zero for a `t` before the anchor.
pub open spec fn bucket_of(anchor: Timestamp, interval: Timestamp, t: Timestamp) -> nat {
    if t >= anchor {
        ((t - anchor) / (interval as int)) as nat
    } else {
        0
    }
}

/// The records are such as a scan hands them to the pooling: in the order of
/// their time stamps, the first at or before the anchor, the others at or
/// after it.
pub open spec fn scanned_from<V: Poolable>(records: Seq<(Timestamp, V)>, anchor: Timestamp) -> bool {
    &&& records.len() > 0
    &&& ascending(key_ranks(records))
    &&& records[0].0 <= anchor
    &&& forall|i: int| 1 <= i < records.len() ==> (#[trigger] records[i]).0 >= anchor
}

/// Of records that were scanned from the anchor on, those at or after it:
/// all of them, or all but the first where that one lies before the anchor.
pub open spec fn within<V: Poolable>(records: Seq<(Timestamp, V)>, anchor: Timestamp) -> Seq<
    (Timestamp, V),
> {
    if records[0].0 == anchor {
        records
    } else {
        records.skip(1)
    }
}

/// The window of records with one more is the window of the records, with
/// the new one at its end if it lies in the window.
pub proof fn lemma_window_push<V>(
    records: Seq<(Timestamp, V)>,
    record: (Timestamp, V),
    from: int,
    to: int,
)
    ensures
        window(records.push(record), from, to) == if from <= record.0 < to {
            window(records, from, to).push(record)
        } else {
            window(records, from, to)
        },
{
    reveal(Seq::filter);
    assert(records.push(record).drop_last() =~= records);
}

/// A window in which no record lies is empty.
pub proof fn lemma_window_none<V>(records: Seq<(Timestamp, V)>, from: int, to: int)
    requires
        forall|i: int| 0 <= i < records.len() ==> !(from <= (#[trigger] records[i]).0 < to),
    ensures
        window(records, from, to) == Seq::<(Timestamp, V)>::empty(),
    decreases records.len(),
{
    reveal(Seq::filter);
    if records.len() > 0 {
        let front = records.drop_last();
        assert forall|i: int| 0 <= i < front.len() implies !(from <= (#[trigger] front[i]).0
            < to) by {
            assert(front[i] == records[i]);
        }
        lemma_window_none(front, from, to);
        assert(records[records.len() - 1] == records.last());
    }
}

/// The keys of records with one more are the keys of the records and the
/// new key, and as many more of them lie below a bound as the new key does.
pub proof fn lemma_below_push<V: Poolable>(
    records: Seq<(Timestamp, V)>,
    record: (Timestamp, V),
    bound: int,
)
    ensures
        below(key_ranks(records.push(record)), bound) == below(key_ranks(records), bound) + if record.0
            < bound {
            1int
        } else {
            0int
        },
{
    assert(key_ranks(records.push(record)).drop_last() =~= key_ranks(records));
}

/// The start of the bucket of a time stamp at or after the anchor is at or
/// before it, and the next bucket starts after it.
pub proof fn lemma_bucket_of(anchor: Timestamp, interval: Timestamp, t: Timestamp)
    requires
        interval > 0,
        t >= anchor,
    ensures
        anchor + bucket_of(anchor, interval, t) * interval <= t < anchor + bucket_of(
            anchor,
            interval,
            t,
        ) * interval + interval,
{
    let d = t - anchor;
    let w = interval as int;
    vstd::arithmetic::div_mod::lemma_fundamental_div_mod(d, w);
    vstd::arithmetic::div_mod::lemma_mod_bound(d, w);
    vstd::arithmetic::div_mod::lemma_div_pos_is_pos(d, w);
    assert((d / w) * w == w * (d / w)) by (nonlinear_arith);
}

/// A time stamp between the start of the bucket of number `k` and the start
/// of the next lies in that bucket.
pub proof fn lemma_bucket_of_is(anchor: Timestamp, interval: Timestamp, t: Timestamp, k: nat)
    requires
        interval > 0,
        anchor + k * interval <= t < anchor + k * interval + interval,
    ensures
        bucket_of(anchor, interval, t) == k,
{
    assert(t >= anchor) by (nonlinear_arith)
        requires
            anchor + k * interval <= t,
            interval > 0,
    ;
    lemma_bucket_of(anchor, interval, t);
    let j = bucket_of(anchor, interval, t);
    assert(j == k) by (nonlinear_arith)
        requires
            anchor + k * interval <= t < anchor + k * interval + interval,
            anchor + j * interval <= t < anchor + j * interval + interval,
            interval > 0,
    ;
}

/// No more keys lie below a bound than there are keys.
pub proof fn lemma_below_bound(keys: Seq<int>, bound: int)
    ensures
        0 <= below(keys, bound) <= keys.len(),
    decreases keys.len(),
{
    if keys.len() > 0 {
        lemma_below_bound(keys.drop_last(), bound);
    }
}

/// A record at or after the end of a bucket changes nothing of what that
/// bucket gives.
pub proof fn lemma_bucket_unchanged<V: Poolable>(
    options: PoolingOptions,
    anchor: Timestamp,
    records: Seq<(Timestamp, V)>,
    record: (Timestamp, V),
    k: nat,
)
    requires
        options.interval > 0,
        records.len() > 0,
        record.0 >= anchor + k * options.interval + options.interval,
    ensures
        bucket_output(options, anchor, records.push(record), k) == bucket_output(
            options,
            anchor,
            records,
            k,
        ),
{
    let label = anchor + k * options.interval;
    lemma_window_push(records, record, label, label + options.interval);
    lemma_below_push(records, record, label);
    lemma_below_bound(key_ranks(records), label);
    let before = below(key_ranks(records), label);
    if before > 0 {
        assert(records.push(record)[before - 1] == records[before - 1]);
    } else {
        assert(records.push(record)[0] == records[0]);
    }
}

/// A record at or after the start of the bucket of number `count` changes
/// nothing of what the buckets before it give.
pub proof fn lemma_buckets_unchanged<V: Poolable>(
    options: PoolingOptions,
    anchor: Timestamp,
    records: Seq<(Timestamp, V)>,
    record: (Timestamp, V),
    count: nat,
)
    requires
        options.interval > 0,
        records.len() > 0,
        record.0 >= anchor + count * options.interval,
    ensures
        buckets_output(options, anchor, records.push(record), count) == buckets_output(
            options,
            anchor,
            records,
            count,
        ),
    decreases count,
{
    if count > 0 {
        let k = (count - 1) as nat;
        assert(k * options.interval + options.interval == count * options.interval)
            by (nonlinear_arith)
            requires
                k + 1 == count,
        ;
        assert(k * options.interval <= count * options.interval) by (nonlinear_arith)
            requires
                k <= count,
        ;
        lemma_buckets_unchanged(options, anchor, records, record, k);
        lemma_bucket_unchanged(options, anchor, records, record, k);
    }
}

/// Rolling forward over buckets that hold no record gives what these buckets
/// give, and ends at the start of the bucket that holds `until`.
pub proof fn lemma_gaps_are_buckets<V: Poolable>(
    options: PoolingOptions,
    anchor: Timestamp,
    records: Seq<(Timestamp, V)>,
    from: nat,
    to: nat,
    until: Timestamp,
    carry: V,
)
    requires
        options.interval > 0,
        from <= to,
        anchor + to * options.interval <= until < anchor + to * options.interval
            + options.interval,
        forall|k: nat|
            from <= k < to ==> #[trigger] bucket_output(options, anchor, records, k) == concluded(
                options,
                (anchor + k * options.interval) as Timestamp,
                Seq::<(Timestamp, V)>::empty(),
                carry,
            ),
    ensures
        buckets_output(options, anchor, records, from) + gaps(
            options,
            (anchor + from * options.interval) as Timestamp,
            until,
            carry,
        ) == buckets_output(options, anchor, records, to),
        rolled(options.interval, (anchor + from * options.interval) as Timestamp, until) == anchor
            + to * options.interval,
    decreases to - from,
{
    let w = options.interval;
    let start = (anchor + from * w) as Timestamp;
    assert(from * w <= to * w) by (nonlinear_arith)
        requires
            from <= to,
            w > 0,
    ;
    if from == to {
        assert(buckets_output(options, anchor, records, from) + Seq::<(Timestamp, V)>::empty()
            =~= buckets_output(options, anchor, records, to));
    } else {
        let next = (from + 1) as nat;
        assert(next * w == from * w + w) by (nonlinear_arith)
            requires
                next == from + 1,
        ;
        assert(next * w <= to * w) by (nonlinear_arith)
            requires
                next <= to,
                w > 0,
        ;
        lemma_gaps_are_buckets(options, anchor, records, next, to, until, carry);
        let done = buckets_output(options, anchor, records, from);
        let gap = concluded(options, start, Seq::<(Timestamp, V)>::empty(), carry);
        let rest = gaps(options, (start + w) as Timestamp, until, carry);
        assert(bucket_output(options, anchor, records, from) == gap);
        assert(buckets_output(options, anchor, records, next) == done + gap);
        assert(done + (gap + rest) =~= (done + gap) + rest);
    }
}

/// Where the gathering stands after records that were scanned from the
/// anchor on: the buckets before the one of the last record are concluded and
/// have given what they give; the open bucket is that of the last record and
/// holds the records of its window; what is carried is the value of the last
/// record before it.
pub proof fn lemma_gathering_by_buckets<V: Poolable>(
    options: PoolingOptions,
    anchor: Timestamp,
    records: Seq<(Timestamp, V)>,
)
    requires
        options.interval > 0,
        scanned_from(records, anchor),
    ensures
        gathering(options, anchor, records).start == anchor + bucket_of(
            anchor,
            options.interval,
            records.last().0,
        ) * options.interval,
        gathering(options, anchor, records).values == buckets_output(
            options,
            anchor,
            records,
            bucket_of(anchor, options.interval, records.last().0),
        ),
        gathering(options, anchor, records).records == window(
            records,
            gathering(options, anchor, records).start as int,
            gathering(options, anchor, records).start + options.interval,
        ),
        gathering(options, anchor, records).carry == carried_into(
            records,
            gathering(options, anchor, records).start as int,
        ),
        records.last().0 < gathering(options, anchor, records).start + options.interval,
    decreases records.len(),
{
    let w = options.interval;
    let keys = key_ranks(records);
    let last = records.last();
    if last.0 >= anchor {
        lemma_bucket_of(anchor, w, last.0);
    }
    if records.len() == 1 {
        let lead = records[0];
        assert(Seq::<(Timestamp, V)>::empty().push(lead) =~= records);
        lemma_window_push(Seq::<(Timestamp, V)>::empty(), lead, anchor as int, anchor + w);
        lemma_window_none(Seq::<(Timestamp, V)>::empty(), anchor as int, anchor + w);
        assert(window(records, anchor as int, anchor + w) =~= if lead.0 == anchor {
            seq![lead]
        } else {
            Seq::<(Timestamp, V)>::empty()
        });
        lemma_below_bound(keys, anchor as int);
        assert(0 * w == 0);
        if lead.0 >= anchor {
            lemma_bucket_of_is(anchor, w, lead.0, 0);
        }
        let first = bucket_of(anchor, w, lead.0);
        assert(first * w == 0) by (nonlinear_arith)
            requires
                first == 0,
        ;
    } else {
        let front = records.drop_last();
        let n = records.len() as int;
        assert(front.push(last) =~= records);
        assert(scanned_from(front, anchor)) by {
            assert forall|i: int, j: int| 0 <= i < j < front.len() implies key_ranks(front)[i]
                < key_ranks(front)[j] by {
                assert(key_ranks(front)[i] == keys[i] && key_ranks(front)[j] == keys[j]);
            }
            assert forall|i: int| 1 <= i < front.len() implies (#[trigger] front[i]).0
                >= anchor by {
                assert(front[i] == records[i]);
            }
            assert(front[0] == records[0]);
        }
        lemma_gathering_by_buckets(options, anchor, front);
        let before = gathering(options, anchor, front);
        let earlier = bucket_of(anchor, w, front.last().0);
        let now = bucket_of(anchor, w, last.0);
        assert(records[n - 1] == last);
        assert(last.0 >= anchor);
        assert(front.last() == records[n - 2]);
        assert(keys[n - 2] < keys[n - 1]);
        assert(front.last().0 < last.0);
        // Every record before the new one lies before the end of the open bucket.
        assert forall|i: int| 0 <= i < front.len() implies (#[trigger] front[i]).0 < before.start
            + w by {
            assert(front[i] == records[i]);
            assert(i == n - 2 || keys[i] < keys[n - 2]);
        }
        if front.last().0 >= anchor {
            lemma_bucket_of(anchor, w, front.last().0);
        }
        assert(before.start <= last.0);
        lemma_below_push(front, last, before.start as int);
        lemma_below_bound(key_ranks(front), before.start as int);
        if last.0 < before.start + w {
            lemma_bucket_of_is(anchor, w, last.0, earlier);
            lemma_buckets_unchanged(options, anchor, front, last, earlier);
            lemma_window_push(front, last, before.start as int, before.start + w);
            let count = below(key_ranks(front), before.start as int);
            if count > 0 {
                assert(records[count - 1] == front[count - 1]);
            } else {
                assert(records[0] == front[0]);
            }
        } else {
            let carry = if before.records.len() > 0 {
                before.records.last().1
            } else {
                before.carry
            };
            let next = (earlier + 1) as nat;
            assert(next * w == earlier * w + w) by (nonlinear_arith)
                requires
                    next == earlier + 1,
            ;
            assert(now * w > earlier * w);
            assert(now > earlier) by (nonlinear_arith)
                requires
                    now * w > earlier * w,
                    w > 0,
            ;
            assert(now * w >= next * w) by (nonlinear_arith)
                requires
                    now >= next,
                    w > 0,
            ;
            // What is carried on is the value of the last record so far.
            assert(carry == front.last().1) by {
                let open = window(front, before.start as int, before.start + w);
                let shorter = front.drop_last();
                assert(shorter.push(front.last()) =~= front);
                lemma_window_push(shorter, front.last(), before.start as int, before.start + w);
                if front.last().0 >= before.start {
                    assert(open.last() == front.last());
                } else {
                    assert forall|i: int| 0 <= i < front.len() implies !(before.start <= (
                    #[trigger] front[i]).0 < before.start + w) by {
                        assert(front[i] == records[i]);
                        assert(i == n - 2 || keys[i] < keys[n - 2]);
                    }
                    lemma_window_none(front, before.start as int, before.start + w);
                    lemma_below(key_ranks(front), before.start as int);
                    let count = below(key_ranks(front), before.start as int);
                    assert(key_ranks(front)[n - 2] < before.start <==> n - 2 < count);
                }
            }
            lemma_buckets_unchanged(options, anchor, front, last, next);
            assert(bucket_output(options, anchor, front, earlier) == concluded(
                options,
                before.start,
                before.records,
                before.carry,
            ));
            // The buckets between the two hold no record.
            assert forall|k: nat| next <= k < now implies #[trigger] bucket_output(
                options,
                anchor,
                records,
                k,
            ) == concluded(
                options,
                (anchor + k * w) as Timestamp,
                Seq::<(Timestamp, V)>::empty(),
                carry,
            ) by {
                lemma_empty_bucket(options, anchor, records, k, next, now);
            }
            lemma_gaps_are_buckets(options, anchor, records, next, now, last.0, carry);
            let start = (anchor + now * w) as Timestamp;
            lemma_window_push(front, last, start as int, start + w);
            lemma_window_none(front, start as int, start + w);
            assert(window(records, start as int, start + w) =~= seq![last]);
            lemma_below_push(front, last, start as int);
            lemma_below_is_all(key_ranks(front), start as int);
            let after = gathering_takes(options, before, last);
            assert(after.values =~= buckets_output(options, anchor, records, now));
        }
    }
}

/// Where every key lies below the bound, all of them are counted.
pub proof fn lemma_below_is_all(keys: Seq<int>, bound: int)
    requires
        forall|i: int| 0 <= i < keys.len() ==> #[trigger] keys[i] < bound,
    ensures
        below(keys, bound) == keys.len(),
    decreases keys.len(),
{
    if keys.len() > 0 {
        let front = keys.drop_last();
        assert forall|i: int| 0 <= i < front.len() implies #[trigger] front[i] < bound by {
            assert(front[i] == keys[i]);
        }
        lemma_below_is_all(front, bound);
        assert(keys[keys.len() - 1] == keys.last());
    }
}

/// A bucket that lies after all records but the last, and wholly before the
/// last, holds no record, and what is carried into it is the value of the
/// last record before the last.
pub proof fn lemma_empty_bucket<V: Poolable>(
    options: PoolingOptions,
    anchor: Timestamp,
    records: Seq<(Timestamp, V)>,
    k: nat,
    next: nat,
    now: nat,
)
    requires
        options.interval > 0,
        records.len() >= 2,
        next <= k < now,
        forall|i: int|
            0 <= i < records.len() - 1 ==> (#[trigger] records[i]).0 < anchor + next
                * options.interval,
        records.last().0 >= anchor + now * options.interval,
    ensures
        bucket_output(options, anchor, records, k) == concluded(
            options,
            (anchor + k * options.interval) as Timestamp,
            Seq::<(Timestamp, V)>::empty(),
            records[records.len() - 2].1,
        ),
{
    let w = options.interval;
    let label = anchor + k * w;
    let front = records.drop_last();
    let last = records.last();
    assert(front.push(last) =~= records);
    assert(next * w <= k * w) by (nonlinear_arith)
        requires
            next <= k,
            w > 0,
    ;
    assert(k * w + w <= now * w) by (nonlinear_arith)
        requires
            k + 1 <= now,
            w > 0,
    ;
    assert forall|i: int| 0 <= i < front.len() implies !(label <= (#[trigger] front[i]).0 < label
        + w) by {
        assert(front[i] == records[i]);
    }
    lemma_window_none(front, label, label + w);
    lemma_window_push(front, last, label, label + w);
    lemma_below_push(front, last, label);
    assert forall|i: int| 0 <= i < key_ranks(front).len() implies #[trigger] key_ranks(front)[i]
        < label by {
        assert(front[i] == records[i]);
    }
    lemma_below_is_all(key_ranks(front), label);
}

/// Where the gathering stands after records that were scanned from the
/// anchor on, with buckets of width one that give their last value and leave
/// gaps unfilled: of the records at or after the anchor all but the last have
/// been given out as they are, and the last one is alone in the open bucket,
/// which starts at its time stamp. A first record before the anchor is not
/// among them.
pub proof fn lemma_unit_gathering_of_scan<V: Poolable>(
    options: PoolingOptions,
    anchor: Timestamp,
    records: Seq<(Timestamp, V)>,
)
    requires
        scanned_from(records, anchor),
        options.interval == 1,
        options.pooling == PoolingMethod::End,
        options.gap_fill is None,
    ensures
        within(records, anchor).len() == 0 ==> {
            &&& gathering(options, anchor, records).values == Seq::<(Timestamp, V)>::empty()
            &&& gathering(options, anchor, records).start == anchor
            &&& gathering(options, anchor, records).records == Seq::<(Timestamp, V)>::empty()
        },
        within(records, anchor).len() > 0 ==> {
            &&& gathering(options, anchor, records).values == within(
                records,
                anchor,
            ).drop_last()
            &&& gathering(options, anchor, records).start == records.last().0
            &&& gathering(options, anchor, records).records == seq![records.last()]
        },
    decreases records.len(),
{
    let keys = key_ranks(records);
    let kept = within(records, anchor);
    if records.len() == 1 {
        if records[0].0 == anchor {
            assert(kept.drop_last() =~= Seq::<(Timestamp, V)>::empty());
        } else {
            assert(kept =~= Seq::<(Timestamp, V)>::empty());
        }
    } else {
        let front = records.drop_last();
        let last = records.last();
        let n = records.len() as int;
        assert(scanned_from(front, anchor)) by {
            assert forall|i: int, j: int| 0 <= i < j < front.len() implies key_ranks(front)[i]
                < key_ranks(front)[j] by {
                assert(key_ranks(front)[i] == keys[i] && key_ranks(front)[j] == keys[j]);
            }
            assert forall|i: int| 1 <= i < front.len() implies (#[trigger] front[i]).0
                >= anchor by {
                assert(front[i] == records[i]);
            }
            assert(front[0] == records[0]);
        }
        lemma_unit_gathering_of_scan(options, anchor, front);
        let before = gathering(options, anchor, front);
        let kept_before = within(front, anchor);
        assert(records[n - 1] == last);
        assert(last.0 >= anchor);
        assert(front.last() == records[n - 2]);
        assert(keys[n - 2] < keys[n - 1]);
        assert(kept.drop_last() =~= kept_before);
        if last.0 >= before.start + 1 {
            let next = (before.start + 1) as Timestamp;
            let carry = if before.records.len() > 0 {
                before.records.last().1
            } else {
                before.carry
            };
            lemma_gaps_unfilled(options, next, last.0, carry);
            lemma_rolled_by_one(next, last.0);
            let closing = concluded(options, before.start, before.records, before.carry);
            if kept_before.len() > 0 {
                assert(closing =~= seq![front.last()]);
                assert(kept_before.drop_last() + seq![front.last()] =~= kept_before);
            } else {
                assert(closing =~= Seq::<(Timestamp, V)>::empty());
            }
            let after = gathering_takes(options, before, last);
            assert(after.values =~= kept_before);
        } else {
            // Only the first record after a lead before the anchor can lie at the anchor.
            assert(kept_before.len() == 0);
            assert(before.records.push(last) =~= seq![last]);
        }
    }
}

/// Pooling records that were scanned from the anchor on into buckets of
/// width one, each with its last value and with gaps left unfilled, gives the
/// records at or after the anchor back as they are.
pub proof fn lemma_unit_pooling_of_scan<V: Poolable>(
    options: PoolingOptions,
    anchor: Timestamp,
    records: Seq<(Timestamp, V)>,
)
    requires
        scanned_from(records, anchor),
        options.interval == 1,
        options.pooling == PoolingMethod::End,
        options.gap_fill is None,
    ensures
        pooled(options, anchor, records) == within(records, anchor),
{
    lemma_unit_gathering_of_scan(options, anchor, records);
    let end = gathering(options, anchor, records);
    let kept = within(records, anchor);
    if kept.len() > 0 {
        assert(kept.last() == records.last());
        assert(concluded(options, end.start, end.records, end.carry) =~= seq![records.last()]);
        assert(kept.drop_last() + seq![kept.last()] =~= kept);
    } else {
        assert(concluded(options, end.start, end.records, end.carry) =~= Seq::<
            (Timestamp, V),
        >::empty());
        assert(end.values + Seq::<(Timestamp, V)>::empty() =~= kept);
    }
}

/// The first `count` buckets give `count` values at most.
pub proof fn lemma_buckets_output_len<V: Poolable>(
    options: PoolingOptions,
    anchor: Timestamp,
    records: Seq<(Timestamp, V)>,
    count: nat,
)
    ensures
        buckets_output(options, anchor, records, count).len() <= count,
    decreases count,
{
    if count > 0 {
        lemma_buckets_output_len(options, anchor, records, (count - 1) as nat);
    }
}

/// Pooling records that were scanned from the anchor on gives one value at
/// most for each bucket up to the bucket of the last record.
pub proof fn lemma_pooled_count<V: Poolable>(
    options: PoolingOptions,
    anchor: Timestamp,
    records: Seq<(Timestamp, V)>,
)
    requires
        options.interval > 0,
        scanned_from(records, anchor),
    ensures
        pooled(options, anchor, records).len() <= bucket_of(
            anchor,
            options.interval,
            records.last().0,
        ) + 1,
{
    lemma_pooled_by_buckets(options, anchor, records);
    lemma_buckets_output_len(
        options,
        anchor,
        records,
        bucket_of(anchor, options.interval, records.last().0) + 1,
    );
}

/// Pooling records that were scanned from the anchor on gives, bucket by
/// bucket up to the bucket of the last record, the value of the records of
/// the bucket's window, or what fills the gap where the window is empty.
pub proof fn lemma_pooled_by_buckets<V: Poolable>(
    options: PoolingOptions,
    anchor: Timestamp,
    records: Seq<(Timestamp, V)>,
)
    requires
        options.interval > 0,
        scanned_from(records, anchor),
    ensures
        pooled(options, anchor, records) == buckets_output(
            options,
            anchor,
            records,
            bucket_of(anchor, options.interval, records.last().0) + 1,
        ),
{
    lemma_gathering_by_buckets(options, anchor, records);
}

} // verus!
