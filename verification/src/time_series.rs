//! Time stamps as keys, and the interface of a store that is read by time.

use vstd::prelude::*;
use crate::decimal::{
    lemma_pow10_values, lemma_zero_padded_order, lemma_zero_padded_shape,
    lemma_zero_padded_value, parse_natural, read_natural, text_precedes, write_zero_padded,
    zero_padded,
};
use core::ops::Range;
use crate::error::StoreError;
use crate::key_value_store::{records_or_failure, KeyValueStore, Retrieval, Storable};
use crate::nearest::{ascending, below, key_ranks, last_of, lemma_below, search_finds};

verus! {

pub type Timestamp = u64;

/// The number of digits of a stored time stamp.
pub const SIGNIFICANT_DIGITS: usize = 13;

/// The first time stamp that thirteen digits cannot hold.
pub const TIMESTAMP_LIMIT: u64 = 10_000_000_000_000;

/// Which neighbour to settle for when the key that was asked for is not stored.
#[derive(Clone, Copy, Debug, PartialEq, Eq, Structural)]
pub enum RetrievalDirection {
    Forward,
    Backward,
}

/// The records whose time stamps lie from `from` up to, and without, `to`.
pub open spec fn window<V>(records: Seq<(Timestamp, V)>, from: int, to: int) -> Seq<
    (Timestamp, V),
> {
    records.filter(|record: (Timestamp, V)| from <= record.0 < to)
}

/// Whether `r` is what the retrieval of the record nearest to `timestamp`
/// comes to: the record that a search of all `records` finds, or the failure
/// of that search.
pub open spec fn nearest_is<V: Storable>(
    records: Seq<(Timestamp, V)>,
    direction: Option<RetrievalDirection>,
    timestamp: Timestamp,
    r: Result<Retrieval<Timestamp, V>, StoreError>,
) -> bool {
    let last = if records.len() == 0 {
        0
    } else {
        records.len() - 1
    };
    match r {
        Ok(found) => exists|i: int|
            0 <= i < records.len() && search_finds(
                key_ranks(records),
                direction,
                timestamp as int,
                0,
                last,
                Ok(i),
            ) && found.single() == Some(#[trigger] records[i]),
        Err(e) => search_finds(key_ranks(records), direction, timestamp as int, 0, last, Err(e)),
    }
}

/// The records at or after `timestamp`. Fewer than two records cannot be
/// searched: of them nothing is returned for a `timestamp` after the last
/// key, and `EmptyRange` otherwise.
pub open spec fn scan_from<V>(records: Seq<(Timestamp, V)>, timestamp: Timestamp) -> Result<
    Seq<(Timestamp, V)>,
    StoreError,
> {
    if records.len() >= 2 {
        Ok(window(records, timestamp as int, u64::MAX + 1))
    } else if timestamp > last_of(records) {
        Ok(Seq::empty())
    } else {
        Err(StoreError::EmptyRange)
    }
}

/// The records before `timestamp`; none of fewer than two records.
pub open spec fn scan_to<V>(records: Seq<(Timestamp, V)>, timestamp: Timestamp) -> Seq<
    (Timestamp, V),
> {
    if records.len() >= 2 {
        window(records, 0, timestamp as int)
    } else {
        Seq::empty()
    }
}

/// The records from `from` up to, and without, `to`. Fewer than two records
/// cannot be searched: of them nothing is returned for a `from` after the
/// last key, and `EmptyRange` otherwise.
pub open spec fn scan_range<V>(
    records: Seq<(Timestamp, V)>,
    from: Timestamp,
    to: Timestamp,
) -> Result<Seq<(Timestamp, V)>, StoreError> {
    if records.len() >= 2 {
        Ok(window(records, from as int, to as int))
    } else if from > last_of(records) {
        Ok(Seq::empty())
    } else {
        Err(StoreError::EmptyRange)
    }
}

/// Among records in the order of their time stamps, those of a window are a
/// run: they start where the keys reach `from` and stop where they reach `to`.
pub proof fn lemma_window_is_run<V: Storable>(records: Seq<(Timestamp, V)>, from: int, to: int)
    requires
        ascending(key_ranks(records)),
    ensures
        0 <= below(key_ranks(records), from) <= records.len(),
        0 <= below(key_ranks(records), to) <= records.len(),
        window(records, from, to) == if below(key_ranks(records), from) <= below(
            key_ranks(records),
            to,
        ) {
            records.subrange(below(key_ranks(records), from), below(key_ranks(records), to))
        } else {
            Seq::empty()
        },
    decreases records.len(),
{
    reveal(Seq::filter);
    let keys = key_ranks(records);
    lemma_below(keys, from);
    lemma_below(keys, to);
    let lo = below(keys, from);
    let hi = below(keys, to);
    if records.len() == 0 {
        assert(window(records, from, to) =~= records.subrange(0, 0));
    } else {
        let front = records.drop_last();
        let front_keys = key_ranks(front);
        assert(front_keys =~= keys.drop_last());
        assert(ascending(front_keys)) by {
            assert forall|i: int, j: int| 0 <= i < j < front_keys.len() implies front_keys[i]
                < front_keys[j] by {
                assert(front_keys[i] == keys[i] && front_keys[j] == keys[j]);
            }
        }
        lemma_window_is_run(front, from, to);
        lemma_below(front_keys, from);
        lemma_below(front_keys, to);
        let last = records.last();
        let n = records.len() as int;
        assert(keys[n - 1] == last.0 as int);
        assert(keys[n - 1] < from <==> n - 1 < lo);
        assert(keys[n - 1] < to <==> n - 1 < hi);
        let pred = |record: (Timestamp, V)| from <= record.0 < to;
        assert(window(records, from, to) == if pred(last) {
            window(front, from, to).push(last)
        } else {
            window(front, from, to)
        });
        if from <= last.0 < to {
            assert(window(records, from, to) =~= records.subrange(lo, hi));
        } else {
            if lo <= hi {
                assert(window(records, from, to) =~= records.subrange(lo, hi));
            } else {
                assert(window(records, from, to) =~= Seq::<(Timestamp, V)>::empty());
            }
        }
    }
}

/// No record lies in a window that ends at or before its start.
pub proof fn lemma_window_empty<V>(records: Seq<(Timestamp, V)>, from: int, to: int)
    requires
        from >= to,
    ensures
        window(records, from, to) == Seq::<(Timestamp, V)>::empty(),
    decreases records.len(),
{
    reveal(Seq::filter);
    if records.len() > 0 {
        lemma_window_empty(records.drop_last(), from, to);
    }
}

/// The records of a window are those of the records whose time stamps lie
/// in it, and no others.
pub proof fn lemma_window_holds<V>(
    records: Seq<(Timestamp, V)>,
    from: int,
    to: int,
    record: (Timestamp, V),
)
    ensures
        window(records, from, to).contains(record) <==> records.contains(record) && from
            <= record.0 < to,
{
    let pred = |r: (Timestamp, V)| from <= r.0 < to;
    if window(records, from, to).contains(record) {
        let k = choose|k: int|
            0 <= k < window(records, from, to).len() && window(records, from, to)[k] == record;
        records.lemma_filter_pred(pred, k);
        records.lemma_filter_contains_rev(pred, record);
    }
    if records.contains(record) && from <= record.0 < to {
        let i = choose|i: int| 0 <= i < records.len() && records[i] == record;
        records.lemma_filter_contains(pred, i);
    }
}

/// In a store of two records or more whose time stamps ascend, the record of
/// a stored time stamp is found whatever the direction.
pub proof fn lemma_stored_key_is_found<V: Storable>(
    records: Seq<(Timestamp, V)>,
    direction: Option<RetrievalDirection>,
    index: int,
    r: Result<Retrieval<Timestamp, V>, StoreError>,
)
    requires
        ascending(key_ranks(records)),
        records.len() >= 2,
        0 <= index < records.len(),
        nearest_is(records, direction, records[index].0, r),
    ensures
        r is Ok,
        r->Ok_0.single() == Some(records[index]),
{
    let keys = key_ranks(records);
    let target = records[index].0 as int;
    assert(keys[index] == target);
    assert(keys[0] <= keys[index]);
    assert(keys[index] <= keys[records.len() - 1]);
    match r {
        Ok(found) => {
            let i = choose|i: int|
                0 <= i < records.len() && search_finds(
                    keys,
                    direction,
                    target,
                    0,
                    records.len() - 1,
                    Ok(i),
                ) && found.single() == Some(#[trigger] records[i]);
            if i < index {
                assert(keys[i] < keys[index]);
                assert(i + 1 == index || keys[i + 1] < keys[index]);
            }
            if i > index {
                assert(keys[index] < keys[i]);
                assert(i - 1 == index || keys[index] < keys[i - 1]);
            }
        },
        Err(e) => {},
    }
}

/// The stored form of time stamps keeps their order: of two that fit, the
/// earlier one is the one whose text comes first byte by byte.
pub proof fn lemma_encoding_keeps_order(a: Timestamp, b: Timestamp)
    requires
        a.fits(),
        b.fits(),
    ensures
        a.rank() < b.rank() <==> text_precedes(a.encoding(), b.encoding()),
{
    lemma_pow10_values();
    lemma_zero_padded_order(a as nat, b as nat, 13);
}

/// A store whose keys are time stamps, read by time.
///
/// What each retrieval returns is stated of an intact store. Ranges are
/// half-open: they include their start and exclude their end.
pub trait TimeSeries<V: Storable>: KeyValueStore<Timestamp, V> {
    /// The record of `timestamp`, or the nearest one in the direction given.
    fn retrieve_nearest(
        &self,
        timestamp: Timestamp,
        retrieval_direction: Option<RetrievalDirection>,
    ) -> (r: Result<Retrieval<Timestamp, V>, StoreError>)
        requires
            self.valid(),
        ensures
            r is Ok ==> r->Ok_0.single() is Some,
            self.intact() ==> nearest_is(self.records(), retrieval_direction, timestamp, r),
    ;

    /// Every record, in order.
    fn retrieve_all(&self) -> (r: Result<Retrieval<Timestamp, V>, StoreError>)
        requires
            self.valid(),
        ensures
            r is Ok ==> r->Ok_0.many() == Some(self.records()),
            self.intact() ==> r is Ok,
    ;

    /// The records at or after `timestamp`.
    fn retrieve_from(&self, timestamp: Timestamp) -> (r: Result<
        Retrieval<Timestamp, V>,
        StoreError,
    >)
        requires
            self.valid(),
        ensures
            r is Ok ==> r->Ok_0.many() is Some,
            self.intact() ==> records_or_failure(r) == scan_from(self.records(), timestamp),
    ;

    /// The records before `timestamp`.
    fn retrieve_to(&self, timestamp: Timestamp) -> (r: Result<Retrieval<Timestamp, V>, StoreError>)
        requires
            self.valid(),
        ensures
            r is Ok ==> r->Ok_0.many() is Some,
            self.intact() ==> r is Ok && r->Ok_0.many() == Some(
                scan_to(self.records(), timestamp),
            ),
    ;

    /// The records from `range.start` up to, and without, `range.end`.
    fn retrieve_range(&self, range: Range<Timestamp>) -> (r: Result<
        Retrieval<Timestamp, V>,
        StoreError,
    >)
        requires
            self.valid(),
        ensures
            r is Ok ==> r->Ok_0.many() is Some,
            self.intact() ==> records_or_failure(r) == scan_range(
                self.records(),
                range.start,
                range.end,
            ),
    ;
}

impl Storable for Timestamp {
    open spec fn width() -> nat {
        13
    }

    open spec fn rank(self) -> int {
        self as int
    }

    open spec fn fits(self) -> bool {
        self < 10_000_000_000_000
    }

    open spec fn encoding(self) -> Seq<u8> {
        zero_padded(self as nat, 13)
    }

    open spec fn decoding(text: Seq<u8>) -> Option<Self> {
        match parse_natural(text) {
            Some(n) => if n <= u64::MAX {
                Some(n as u64)
            } else {
                None
            },
            None => None,
        }
    }

    open spec fn initial() -> Self {
        0
    }

    fn size() -> (n: usize) {
        SIGNIFICANT_DIGITS
    }

    fn into_bytes(self) -> (r: Result<Vec<u8>, StoreError>) {
        if self < TIMESTAMP_LIMIT {
            Ok(write_zero_padded(self, SIGNIFICANT_DIGITS))
        } else {
            Err(StoreError::OutOfRange)
        }
    }

    fn from_bytes(buffer: &[u8]) -> (r: Result<Self, StoreError>) {
        assert(buffer@.subrange(0, buffer@.len() as int) =~= buffer@);
        match read_natural(buffer, 0, buffer.len()) {
            Some(value) => Ok(value),
            None => Err(StoreError::Malformed),
        }
    }

    fn default_value() -> (value: Self) {
        0
    }

    fn precedes(self, other: Self) -> (b: bool) {
        self < other
    }

    proof fn lemma_rank_decides(a: Self, b: Self) {
    }

    proof fn lemma_round_trip(self) {
        lemma_pow10_values();
        lemma_zero_padded_shape(self as nat, 13);
        lemma_zero_padded_value(self as nat, 13);
        let text = zero_padded(self as nat, 13);
        assert(text[0] != 43) by {
            assert(crate::decimal::is_digit(text[0]));
        }
    }
}

} // verus!
