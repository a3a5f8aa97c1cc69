//! Pooling: how the records of a time series are gathered into buckets of a
//! fixed width, and which value stands for each bucket.

use vstd::prelude::*;
use core::ops::Range;
use crate::buckets::{lemma_unit_pooling_is_identity, pooled};
use crate::error::StoreError;
use crate::key_value_store::{records_or_failure, KeyValueStore, Retrieval, Storable};
use crate::bucket_contents::{
    lemma_below_is_all, lemma_unit_pooling_of_scan, scanned_from, within,
};
use crate::nearest::{
    ascending, below, find_from_outcome, find_to_outcome, key_ranks, lemma_below,
    lemma_below_is,
};
use crate::time_series::{
    lemma_window_is_run, scan_from, scan_range, scan_to, TimeSeries, Timestamp,
};

verus! {

pub type Interval = Timestamp;

/// The value to return during gaps in the record
#[derive(Clone, Copy, Debug, PartialEq, Eq, Structural)]
pub enum GapFillMethod {
    /// Buckets with no records will receive the data type's default value
    Default,
    /// Buckets with no records will receive the value of the last bucket
    Previous,
}

/// The value to return for each bucket
#[derive(Clone, Copy, Debug, PartialEq, Eq, Structural)]
pub enum PoolingMethod {
    End,
    High,
    Low,
    Mean,
    /// When gap_fill is Some(Default), the bucket value is the first record in the bucket.
    /// Otherwise, the bucket value is the most recent record upon bucket start.
    Start,
    Sum,
}

#[derive(Clone, Copy, Debug)]
pub struct PoolingOptions {
    /// The size of each bucket; buckets of the size zero are refused
    pub interval: Interval,
    /// Which value to return for each bucket
    pub pooling: PoolingMethod,
    /// Whether and how to fill gaps
    pub gap_fill: Option<GapFillMethod>,
}

impl Default for PoolingOptions {
    fn default() -> (options: Self)
        ensures
            options == (PoolingOptions {
                interval: 0,
                pooling: PoolingMethod::End,
                gap_fill: None,
            }),
    {
        Self { interval: 0, pooling: PoolingMethod::End, gap_fill: None }
    }
}

/// A value that buckets can be made of: besides its order, it has a mean and
/// a sum.
pub trait Poolable: Storable {
    /// The mean of `values`, which is not empty.
    spec fn mean_of(values: Seq<Self>) -> Self;

    /// The sum of `values`.
    spec fn sum_of(values: Seq<Self>) -> Self;

    fn mean(values: &[Self]) -> (mean: Self)
        requires
            values@.len() > 0,
        ensures
            mean == Self::mean_of(values@),
    ;

    fn sum(values: &[Self]) -> (sum: Self)
        ensures
            sum == Self::sum_of(values@),
    ;
}

/// All records, pooled from the first key on. Buckets without a width are
/// refused, and a store without records has nothing to read the first bucket
/// from.
pub open spec fn pooled_all<V: Poolable>(
    records: Seq<(Timestamp, V)>,
    options: PoolingOptions,
) -> Result<Seq<(Timestamp, V)>, StoreError> {
    if options.interval == 0 {
        Err(StoreError::InvalidInterval)
    } else if records.len() == 0 {
        Err(StoreError::UnexpectedEof)
    } else {
        Ok(pooled(options, records[0].0, records))
    }
}

/// The records from the last one at or before `timestamp` on, pooled from
/// `timestamp` on; from the first key on where `timestamp` lies before it.
/// Buckets without a width are refused.
pub open spec fn pooled_from<V: Poolable>(
    records: Seq<(Timestamp, V)>,
    timestamp: Timestamp,
    options: PoolingOptions,
) -> Result<Seq<(Timestamp, V)>, StoreError> {
    if options.interval == 0 {
        Err(StoreError::InvalidInterval)
    } else {
        match find_from_outcome(records, timestamp) {
            Ok((anchor, first)) => Ok(pooled(options, anchor, records.skip(first))),
            Err(e) => Err(e),
        }
    }
}

/// The records before `timestamp`, pooled from the first key on; nothing
/// where no record lies before `timestamp`, or where there are fewer than two
/// records to search. Buckets without a width are refused.
pub open spec fn pooled_to<V: Poolable>(
    records: Seq<(Timestamp, V)>,
    timestamp: Timestamp,
    options: PoolingOptions,
) -> Result<Seq<(Timestamp, V)>, StoreError> {
    if options.interval == 0 {
        Err(StoreError::InvalidInterval)
    } else {
        match find_to_outcome(key_ranks(records), timestamp as int) {
            Ok(last) => Ok(pooled(options, records[0].0, records.take(last + 1))),
            Err(_) => Ok(Seq::empty()),
        }
    }
}

/// The records of the range, pooled from `from` on; from the first key on
/// where `from` lies before it. The scan starts at the last record at or
/// before `from`, whose value is carried into the first bucket where it lies
/// before `from`, and ends at the last record before `to`. Nothing is
/// returned where no record lies in the range: where the scan ends before it
/// starts, or at the very record it starts at and that record lies before
/// `from`. Buckets without a width are refused.
pub open spec fn pooled_range<V: Poolable>(
    records: Seq<(Timestamp, V)>,
    from: Timestamp,
    to: Timestamp,
    options: PoolingOptions,
) -> Result<Seq<(Timestamp, V)>, StoreError> {
    if options.interval == 0 {
        Err(StoreError::InvalidInterval)
    } else {
        match find_from_outcome(records, from) {
            Ok((anchor, first)) => match find_to_outcome(key_ranks(records), to as int) {
                Ok(last) => if last < first || (last == first && records[first].0 < from) {
                    Ok(Seq::empty())
                } else {
                    Ok(pooled(options, anchor, records.subrange(first, last + 1)))
                },
                Err(_) => Ok(Seq::empty()),
            },
            Err(e) => Err(e),
        }
    }
}

/// A run of records in the order of their time stamps is in that order too.
pub proof fn lemma_run_ascends<V: Poolable>(records: Seq<(Timestamp, V)>, from: int, to: int)
    requires
        ascending(key_ranks(records)),
        0 <= from <= to <= records.len(),
    ensures
        ascending(key_ranks(records.subrange(from, to))),
{
    let run = records.subrange(from, to);
    let keys = key_ranks(records);
    assert forall|i: int, j: int| 0 <= i < j < run.len() implies key_ranks(run)[i] < key_ranks(
        run,
    )[j] by {
        assert(key_ranks(run)[i] == keys[from + i]);
        assert(key_ranks(run)[j] == keys[from + j]);
    }
}

/// The records that the pooling operations of an intact store hand to the
/// pooling are such as `scanned_from` asks for, so that what they return is
/// what the buckets give one by one: all records from their first key on; the
/// records from where `find_from_outcome` starts, from its anchor on, to the
/// end or to any record after the start.
pub proof fn lemma_scans_are_scanned_from<V: Poolable>(
    records: Seq<(Timestamp, V)>,
    timestamp: Timestamp,
    to: int,
)
    requires
        ascending(key_ranks(records)),
        records.len() > 0,
    ensures
        scanned_from(records, records[0].0),
        0 < to <= records.len() ==> scanned_from(records.take(to), records[0].0),
        find_from_outcome(records, timestamp) is Ok ==> {
            let (anchor, first) = find_from_outcome(records, timestamp)->Ok_0;
            &&& 0 <= first < records.len()
            &&& scanned_from(records.skip(first), anchor)
            &&& first < to <= records.len() ==> scanned_from(records.subrange(first, to), anchor)
        },
{
    let keys = key_ranks(records);
    let n = records.len() as int;
    assert forall|i: int| 1 <= i < n implies (#[trigger] records[i]).0 >= records[0].0 by {
        assert(keys[0] < keys[i]);
    }
    if 0 < to <= n {
        lemma_run_ascends(records, 0, to);
        assert(records.take(to) =~= records.subrange(0, to));
        assert forall|i: int| 1 <= i < to implies (#[trigger] records.take(to)[i]).0
            >= records[0].0 by {
            assert(records.take(to)[i] == records[i]);
        }
    }
    if find_from_outcome(records, timestamp) is Ok {
        let (anchor, first) = find_from_outcome(records, timestamp)->Ok_0;
        lemma_below(keys, timestamp + 1);
        if timestamp >= records[0].0 {
            assert(keys[0] < timestamp + 1 <==> 0 < below(keys, timestamp + 1));
            assert(keys[first] < timestamp + 1 <==> first < below(keys, timestamp + 1));
        }
        lemma_run_ascends(records, first, n);
        assert(records.skip(first) =~= records.subrange(first, n));
        assert forall|i: int| 1 <= i < n - first implies (#[trigger] records.skip(first)[i]).0
            >= anchor by {
            assert(records.skip(first)[i] == records[first + i]);
            assert(keys[first + i] < timestamp + 1 <==> first + i < below(keys, timestamp + 1));
            assert(keys[0] < keys[first + i]);
        }
        if first < to <= n {
            lemma_run_ascends(records, first, to);
            assert forall|i: int| 1 <= i < to - first implies (#[trigger] records.subrange(
                first,
                to,
            )[i]).0 >= anchor by {
                assert(records.subrange(first, to)[i] == records.skip(first)[i]);
            }
        }
    }
}

/// With buckets of width one, each with its last value and with gaps left
/// unfilled, pooling a range of two records or more in the order of their
/// time stamps gives what the retrieval of the range gives: exactly the
/// records from `from` up to, and without, `to`, each under its own time
/// stamp.
pub proof fn lemma_unit_pooled_range<V: Poolable>(
    records: Seq<(Timestamp, V)>,
    from: Timestamp,
    to: Timestamp,
    options: PoolingOptions,
)
    requires
        ascending(key_ranks(records)),
        records.len() >= 2,
        options.interval == 1,
        options.pooling == PoolingMethod::End,
        options.gap_fill is None,
    ensures
        pooled_range(records, from, to, options) == scan_range(records, from, to),
{
    let keys = key_ranks(records);
    let n = records.len() as int;
    lemma_window_is_run(records, from as int, to as int);
    lemma_below(keys, from as int);
    lemma_below(keys, from + 1);
    lemma_below(keys, to as int);
    let lo = below(keys, from as int);
    let hi = below(keys, to as int);
    let (anchor, first) = find_from_outcome(records, from)->Ok_0;
    assert(keys[0] == records[0].0);
    assert(find_from_outcome(records, from) is Ok);
    // Where the scan starts, and whether its first record lies in the range.
    if from < records[0].0 {
        lemma_below_is(keys, from as int, 0);
    } else {
        let upto = below(keys, from + 1);
        assert(keys[0] < from + 1 <==> 0 < upto);
        assert(first == upto - 1);
        assert(keys[first] < from + 1 <==> first < upto);
        if first + 1 < n {
            assert(keys[first + 1] < from + 1 <==> first + 1 < upto);
        }
        if keys[first] < from {
            lemma_below_is(keys, from as int, first + 1);
        } else {
            if first > 0 {
                assert(keys[first - 1] < keys[first]);
            }
            lemma_below_is(keys, from as int, first);
        }
    }
    assert(keys[first] == records[first].0);
    assert(lo == if records[first].0 < from {
        first + 1
    } else {
        first
    });
    match find_to_outcome(keys, to as int) {
        Ok(last) => {
            assert(last == hi - 1);
            if last < first || (last == first && records[first].0 < from) {
                if lo <= hi {
                    assert(records.subrange(lo, hi) =~= Seq::<(Timestamp, V)>::empty());
                }
            } else {
                let run = records.subrange(first, last + 1);
                lemma_scans_are_scanned_from(records, from, last + 1);
                lemma_unit_pooling_of_scan(options, anchor, run);
                assert(run[0] == records[first]);
                if records[first].0 == anchor {
                    assert(within(run, anchor) =~= records.subrange(lo, hi));
                } else {
                    assert(within(run, anchor) =~= records.subrange(lo, hi));
                }
            }
        },
        Err(_) => {
            assert(keys[0] < to <==> 0 < hi);
            if lo <= hi {
                assert(records.subrange(lo, hi) =~= Seq::<(Timestamp, V)>::empty());
            }
        },
    }
}

/// With buckets of width one, each with its last value and with gaps left
/// unfilled, pooling gives what the retrievals give: all records; of two
/// records or more, those at or after a time stamp, and those before one.
pub proof fn lemma_unit_pooled_scans<V: Poolable>(
    records: Seq<(Timestamp, V)>,
    timestamp: Timestamp,
    options: PoolingOptions,
)
    requires
        ascending(key_ranks(records)),
        records.len() > 0,
        options.interval == 1,
        options.pooling == PoolingMethod::End,
        options.gap_fill is None,
    ensures
        pooled_all(records, options) == Ok::<Seq<(Timestamp, V)>, StoreError>(records),
        records.len() >= 2 ==> pooled_from(records, timestamp, options) == scan_from(
            records,
            timestamp,
        ),
        records.len() >= 2 ==> pooled_to(records, timestamp, options) == Ok::<
            Seq<(Timestamp, V)>,
            StoreError,
        >(scan_to(records, timestamp)),
{
    let keys = key_ranks(records);
    let n = records.len() as int;
    lemma_unit_pooling_is_identity(options, records);
    if n >= 2 {
        assert(keys[0] == records[0].0);
        // From a time stamp on.
        lemma_window_is_run(records, timestamp as int, u64::MAX + 1);
        lemma_below(keys, timestamp as int);
        lemma_below(keys, timestamp + 1);
        lemma_below_is_all(keys, u64::MAX + 1);
        let (anchor, first) = find_from_outcome(records, timestamp)->Ok_0;
        if timestamp < records[0].0 {
            lemma_below_is(keys, timestamp as int, 0);
        } else {
            let upto = below(keys, timestamp + 1);
            assert(keys[0] < timestamp + 1 <==> 0 < upto);
            assert(keys[first] < timestamp + 1 <==> first < upto);
            if first + 1 < n {
                assert(keys[first + 1] < timestamp + 1 <==> first + 1 < upto);
            }
            if keys[first] < timestamp {
                lemma_below_is(keys, timestamp as int, first + 1);
            } else {
                if first > 0 {
                    assert(keys[first - 1] < keys[first]);
                }
                lemma_below_is(keys, timestamp as int, first);
            }
        }
        assert(keys[first] == records[first].0);
        let tail = records.skip(first);
        lemma_scans_are_scanned_from(records, timestamp, n);
        lemma_unit_pooling_of_scan(options, anchor, tail);
        assert(tail[0] == records[first]);
        assert(within(tail, anchor) =~= records.subrange(below(keys, timestamp as int), n));
        // Up to a time stamp.
        lemma_window_is_run(records, 0, timestamp as int);
        lemma_below_is(keys, 0, 0);
        let hi = below(keys, timestamp as int);
        assert(keys[0] < timestamp <==> 0 < hi);
        match find_to_outcome(keys, timestamp as int) {
            Ok(last) => {
                let head = records.take(last + 1);
                lemma_run_ascends(records, 0, last + 1);
                assert(head =~= records.subrange(0, hi));
                assert(head[0] == records[0]);
                lemma_unit_pooling_is_identity(options, head);
            },
            Err(_) => {
                assert(records.subrange(0, 0) =~= Seq::<(Timestamp, V)>::empty());
            },
        }
    }
}

/// A time series that is read in buckets.
///
/// What each operation returns is stated of an intact store. Buckets of the
/// width zero are refused by every operation, with `InvalidInterval`, before
/// anything is read.
pub trait PooledTimeSeries<V: Poolable>: TimeSeries<V> {
    fn pool_all(&self, pooling_options: PoolingOptions) -> (r: Result<
        Retrieval<Timestamp, V>,
        StoreError,
    >)
        requires
            self.valid(),
        ensures
            r is Ok ==> r->Ok_0.many() is Some,
            pooling_options.interval == 0 ==> r is Err && r->Err_0
                == StoreError::InvalidInterval,
            self.intact() ==> records_or_failure(r) == pooled_all(self.records(), pooling_options),
    ;

    fn pool_from(&self, timestamp: Timestamp, pooling_options: PoolingOptions) -> (r: Result<
        Retrieval<Timestamp, V>,
        StoreError,
    >)
        requires
            self.valid(),
        ensures
            r is Ok ==> r->Ok_0.many() is Some,
            pooling_options.interval == 0 ==> r is Err && r->Err_0
                == StoreError::InvalidInterval,
            self.intact() ==> records_or_failure(r) == pooled_from(
                self.records(),
                timestamp,
                pooling_options,
            ),
    ;

    fn pool_to(&self, timestamp: Timestamp, pooling_options: PoolingOptions) -> (r: Result<
        Retrieval<Timestamp, V>,
        StoreError,
    >)
        requires
            self.valid(),
        ensures
            r is Ok ==> r->Ok_0.many() is Some,
            pooling_options.interval == 0 ==> r is Err && r->Err_0
                == StoreError::InvalidInterval,
            self.intact() ==> records_or_failure(r) == pooled_to(
                self.records(),
                timestamp,
                pooling_options,
            ),
    ;

    fn pool_range(&self, range: Range<Timestamp>, pooling_options: PoolingOptions) -> (r: Result<
        Retrieval<Timestamp, V>,
        StoreError,
    >)
        requires
            self.valid(),
        ensures
            r is Ok ==> r->Ok_0.many() is Some,
            pooling_options.interval == 0 ==> r is Err && r->Err_0
                == StoreError::InvalidInterval,
            self.intact() ==> records_or_failure(r) == pooled_range(
                self.records(),
                range.start,
                range.end,
                pooling_options,
            ),
    ;
}

} // verus!
