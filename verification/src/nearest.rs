//! What it means to find a key, or its nearest neighbour, among keys that
//! ascend.

use vstd::prelude::*;
use crate::error::StoreError;
use crate::key_value_store::Storable;
use crate::time_series::RetrievalDirection;

verus! {

/// The ranks of the keys of `records`.
pub open spec fn key_ranks<K: Storable, V>(records: Seq<(K, V)>) -> Seq<int> {
    Seq::new(records.len(), |i: int| records[i].0.rank())
}

/// `keys` ascend strictly.
pub open spec fn ascending(keys: Seq<int>) -> bool {
    forall|i: int, j: int| 0 <= i < j < keys.len() ==> keys[i] < keys[j]
}

/// The number of `keys` below `bound`. Among ascending keys it is the index of
/// the first key at or above `bound`.
pub open spec fn below(keys: Seq<int>, bound: int) -> int
    decreases keys.len(),
{
    if keys.len() == 0 {
        0
    } else {
        below(keys.drop_last(), bound) + if keys.last() < bound {
            1int
        } else {
            0int
        }
    }
}

/// Among ascending keys, those below a bound are the first `below` ones.
pub proof fn lemma_below(keys: Seq<int>, bound: int)
    requires
        ascending(keys),
    ensures
        0 <= below(keys, bound) <= keys.len(),
        forall|i: int| 0 <= i < keys.len() ==> (#[trigger] keys[i] < bound <==> i < below(keys, bound)),
    decreases keys.len(),
{
    if keys.len() > 0 {
        let front = keys.drop_last();
        assert(ascending(front)) by {
            assert forall|i: int, j: int| 0 <= i < j < front.len() implies front[i] < front[j] by {
                assert(front[i] == keys[i] && front[j] == keys[j]);
            }
        }
        lemma_below(front, bound);
        assert forall|i: int| 0 <= i < keys.len() implies (#[trigger] keys[i] < bound <==> i < below(
            keys,
            bound,
        )) by {
            if i < front.len() {
                assert(front[i] == keys[i]);
            }
            if keys.last() < bound && front.len() > 0 {
                assert(front[front.len() - 1] == keys[front.len() - 1]);
                assert(keys[front.len() - 1] < keys[keys.len() - 1] || front.len() == keys.len());
            }
        }
    }
}

/// The index at which ascending keys pass a bound is the number of keys below it.
pub proof fn lemma_below_is(keys: Seq<int>, bound: int, index: int)
    requires
        ascending(keys),
        0 <= index <= keys.len(),
        index > 0 ==> keys[index - 1] < bound,
        index < keys.len() ==> bound <= keys[index],
    ensures
        below(keys, bound) == index,
{
    lemma_below(keys, bound);
    let b = below(keys, bound);
    if b < index {
        assert(keys[b] < bound <==> b < b);
        assert(b == index - 1 || keys[b] < keys[index - 1]);
    }
    if b > index {
        assert(keys[index] < bound <==> index < b);
    }
}

/// Whether `outcome` is what a search for the rank `target` among the records
/// of indices `first` to `last`, both included, comes to.
///
/// A record of that rank is found whatever the direction. Without one, the
/// search settles for the next greater key when it goes forward and for the
/// next lesser one when it goes backward. A range of a single index is
/// searched in vain.
pub open spec fn search_finds(
    keys: Seq<int>,
    direction: Option<RetrievalDirection>,
    target: int,
    first: int,
    last: int,
    outcome: Result<int, StoreError>,
) -> bool {
    match outcome {
        Ok(i) => {
            &&& first < last
            &&& first <= i <= last
            &&& {
                ||| keys[i] == target
                ||| {
                    &&& direction == Some(RetrievalDirection::Forward)
                    &&& target < keys[i]
                    &&& i == first || keys[i - 1] < target
                }
                ||| {
                    &&& direction == Some(RetrievalDirection::Backward)
                    &&& keys[i] < target
                    &&& i == last || target < keys[i + 1]
                }
            }
        },
        Err(StoreError::EmptyRange) => first == last,
        Err(StoreError::BeforeRange) => {
            &&& first < last
            &&& target < keys[first]
            &&& direction != Some(RetrievalDirection::Forward)
        },
        Err(StoreError::AfterRange) => {
            &&& first < last
            &&& keys[last] < target
            &&& direction != Some(RetrievalDirection::Backward)
        },
        Err(StoreError::KeyNotFound) => {
            &&& first < last
            &&& direction is None
            &&& keys[first] < target < keys[last]
            &&& forall|i: int| first <= i <= last ==> keys[i] != target
        },
        Err(_) => false,
    }
}

/// Among ascending keys a search has one outcome and no other.
pub proof fn lemma_search_outcome_is_unique(
    keys: Seq<int>,
    direction: Option<RetrievalDirection>,
    target: int,
    first: int,
    last: int,
    one: Result<int, StoreError>,
    other: Result<int, StoreError>,
)
    requires
        ascending(keys),
        0 <= first <= last < keys.len(),
        search_finds(keys, direction, target, first, last, one),
        search_finds(keys, direction, target, first, last, other),
    ensures
        one == other,
{
    if first < last {
        assert(keys[first] < keys[last]);
    }
    match (one, other) {
        (Ok(i), Ok(j)) => {
            if i < j {
                assert(keys[i] < keys[j]);
                assert(i + 1 == j || keys[i + 1] < keys[j]);
                assert(i == j - 1 || keys[i] < keys[j - 1]);
            }
            if j < i {
                assert(keys[j] < keys[i]);
                assert(j + 1 == i || keys[j + 1] < keys[i]);
                assert(j == i - 1 || keys[j] < keys[i - 1]);
            }
        },
        (Ok(i), Err(e)) => {
            assert(i == first || keys[first] < keys[i]);
            assert(i == last || keys[i] < keys[last]);
        },
        (Err(e), Ok(j)) => {
            assert(j == first || keys[first] < keys[j]);
            assert(j == last || keys[j] < keys[last]);
        },
        (Err(e), Err(f)) => {},
    }
}

/// Among ascending keys every search has an outcome.
pub proof fn lemma_search_has_outcome(
    keys: Seq<int>,
    direction: Option<RetrievalDirection>,
    target: int,
    first: int,
    last: int,
) -> (outcome: Result<int, StoreError>)
    requires
        ascending(keys),
        0 <= first <= last < keys.len(),
    ensures
        search_finds(keys, direction, target, first, last, outcome),
{
    if first == last {
        Err(StoreError::EmptyRange)
    } else if target < keys[first] {
        if direction == Some(RetrievalDirection::Forward) {
            Ok(first)
        } else {
            Err(StoreError::BeforeRange)
        }
    } else if keys[last] < target {
        if direction == Some(RetrievalDirection::Backward) {
            Ok(last)
        } else {
            Err(StoreError::AfterRange)
        }
    } else {
        lemma_below(keys, target);
        let at = below(keys, target);
        assert(keys[last] < target <==> last < at);
        assert(at <= last);
        if at < first {
            assert(keys[first] < target <==> first < at);
            assert(keys[at] < keys[first]);
            assert(keys[at] < target <==> at < at);
        }
        if keys[at] == target {
            Ok(at)
        } else {
            assert(at > first) by {
                assert(keys[first] < target <==> first < at);
            }
            assert(keys[at - 1] < target <==> at - 1 < at);
            assert(keys[at] < target <==> at < at);
            match direction {
                Some(RetrievalDirection::Forward) => Ok(at),
                Some(RetrievalDirection::Backward) => Ok(at - 1),
                None => {
                    assert forall|i: int| first <= i <= last implies keys[i] != target by {
                        assert(keys[i] < target <==> i < at);
                        if i > at {
                            assert(keys[at] < keys[i]);
                        }
                    }
                    Err(StoreError::KeyNotFound)
                },
            }
        }
    }
}

/// The key of the first of `records`; `K::initial()` where there is none.
pub open spec fn first_of<K: Storable, V>(records: Seq<(K, V)>) -> K {
    if records.len() == 0 {
        K::initial()
    } else {
        records[0].0
    }
}

/// The key of the last of `records`; `K::initial()` where there is none.
pub open spec fn last_of<K: Storable, V>(records: Seq<(K, V)>) -> K {
    if records.len() == 0 {
        K::initial()
    } else {
        records.last().0
    }
}

/// Where a scan that starts at `target` begins, and the key from which its
/// buckets are counted: at the last record at or before `target`, with
/// `target` as the anchor; at the first record, with its key as the anchor,
/// where `target` lies before all records.
///
/// The record is looked for by a search, which a store of a single record
/// does not allow.
pub open spec fn find_from_outcome<K: Storable, V>(records: Seq<(K, V)>, target: K) -> Result<
    (K, int),
    StoreError,
> {
    if target.rank() < first_of(records).rank() {
        if records.len() == 0 {
            Err(StoreError::UnexpectedEof)
        } else {
            Ok((first_of(records), 0))
        }
    } else if records.len() <= 1 {
        Err(StoreError::EmptyRange)
    } else {
        Ok((target, below(key_ranks(records), target.rank() + 1) - 1))
    }
}

/// Where a scan that stops before `target` ends: at the last key below
/// `target`. There is none where `target` lies before the first key
/// (`BeforeRange`) or is the first key (`BoundAtFirstRecord`), and fewer than
/// two keys cannot be searched.
pub open spec fn find_to_outcome(keys: Seq<int>, target: int) -> Result<int, StoreError> {
    if keys.len() <= 1 {
        Err(StoreError::EmptyRange)
    } else if target < keys[0] {
        Err(StoreError::BeforeRange)
    } else if target == keys[0] {
        Err(StoreError::BoundAtFirstRecord)
    } else {
        Ok(below(keys, target) - 1)
    }
}

} // verus!
