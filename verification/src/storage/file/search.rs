//! Finding the record of a key, or its nearest neighbour, by halving the
//! range of records in which it can lie.

use vstd::prelude::*;
use crate::error::StoreError;
use crate::key_value_store::Storable;
use crate::storage::file::record::{
    item_width, key_of, key_read, read_key, record_of, record_read,
};
use crate::storage::file::{count_of, is_ordered_image, records_of, slot_of};
use crate::nearest::{ascending, key_ranks, search_finds};
use crate::time_series::RetrievalDirection;

verus! {

broadcast use vstd::slice::group_slice_axioms;

/// The rank of the key of the record of index `i`.
pub open spec fn rank_at<K: Storable, V: Storable>(image: Seq<u8>, i: int) -> int {
    key_ranks(records_of::<K, V>(image))[i]
}

/// The keys of an ordered image ascend, one for each of its records.
pub proof fn lemma_ordered_keys<K: Storable, V: Storable>(image: Seq<u8>)
    requires
        is_ordered_image::<K, V>(image),
    ensures
        ascending(key_ranks(records_of::<K, V>(image))),
        key_ranks(records_of::<K, V>(image)).len() == count_of::<K, V>(image),
        records_of::<K, V>(image).len() == count_of::<K, V>(image),
        forall|i: int|
            0 <= i < count_of::<K, V>(image) ==> (#[trigger] records_of::<K, V>(image)[i])
                == record_of::<K, V>(slot_of::<K, V>(image, i))->Some_0,
{
    let keys = key_ranks(records_of::<K, V>(image));
    assert forall|i: int, j: int| 0 <= i < j < keys.len() implies keys[i] < keys[j] by {
        assert(keys[i] == record_of::<K, V>(slot_of::<K, V>(image, i))->Some_0.0.rank());
        assert(keys[j] == record_of::<K, V>(slot_of::<K, V>(image, j))->Some_0.0.rank());
    }
}

/// The outcome of a search, with the byte offset that was found turned into
/// the index of its record.
pub open spec fn as_index<K: Storable, V: Storable>(r: Result<u64, StoreError>) -> Result<
    int,
    StoreError,
> {
    match r {
        Ok(offset) => Ok(offset as int / item_width::<K, V>() as int),
        Err(e) => Err(e),
    }
}

/// Where the record of index `i` lies in the image, and that its key is the
/// key that is read from its first bytes.
pub proof fn lemma_slot<K: Storable, V: Storable>(image: Seq<u8>, i: int)
    requires
        image.len() % item_width::<K, V>() == 0,
        0 <= i < count_of::<K, V>(image),
    ensures
        0 <= i * item_width::<K, V>(),
        (i + 1) * item_width::<K, V>() <= image.len(),
        (i + 1) * item_width::<K, V>() == i * item_width::<K, V>() + item_width::<K, V>(),
        (i * item_width::<K, V>()) / item_width::<K, V>() as int == i,
        (i * item_width::<K, V>()) % item_width::<K, V>() as int == 0,
        slot_of::<K, V>(image, i).len() == item_width::<K, V>(),
        slot_of::<K, V>(image, i).subrange(0, K::width() as int) == image.subrange(
            i * item_width::<K, V>(),
            i * item_width::<K, V>() + K::width(),
        ),
        record_of::<K, V>(slot_of::<K, V>(image, i)) is Some ==> key_of::<K>(
            slot_of::<K, V>(image, i),
        ) == Some(record_of::<K, V>(slot_of::<K, V>(image, i))->Some_0.0),
{
    let w = item_width::<K, V>() as int;
    let n = count_of::<K, V>(image) as int;
    let len = image.len() as int;
    vstd::arithmetic::div_mod::lemma_fundamental_div_mod(len, w);
    assert(len == w * n);
    assert((i + 1) * w <= n * w) by (nonlinear_arith)
        requires
            i + 1 <= n,
            w > 0,
    ;
    assert(n * w == w * n) by (nonlinear_arith);
    assert((i + 1) * w == i * w + w) by (nonlinear_arith);
    assert(0 <= i * w) by (nonlinear_arith)
        requires
            0 <= i,
            w > 0,
    ;
    assert(i * w == w * i) by (nonlinear_arith);
    vstd::arithmetic::div_mod::lemma_div_multiples_vanish(i, w);
    vstd::arithmetic::div_mod::lemma_mod_multiples_basic(i, w);
    assert(slot_of::<K, V>(image, i).subrange(0, K::width() as int) =~= image.subrange(
        i * w,
        i * w + K::width(),
    ));
}

/// In an ordered image, reading at the offset of the record of index `i`
/// gives that record, and reading its key alone gives its key.
pub proof fn lemma_reads<K: Storable, V: Storable>(image: Seq<u8>, i: int)
    requires
        is_ordered_image::<K, V>(image),
        0 <= i < count_of::<K, V>(image),
    ensures
        key_read::<K>(image, i * item_width::<K, V>()) == Ok::<K, StoreError>(
            records_of::<K, V>(image)[i].0,
        ),
        record_read::<K, V>(image, i * item_width::<K, V>()) == Ok::<(K, V), StoreError>(
            records_of::<K, V>(image)[i],
        ),
        key_ranks(records_of::<K, V>(image))[i] == records_of::<K, V>(image)[i].0.rank(),
{
    lemma_slot::<K, V>(image, i);
    let w = item_width::<K, V>() as int;
    assert(record_of::<K, V>(slot_of::<K, V>(image, i)) is Some);
    assert(image.subrange(i * w, i * w + w) =~= slot_of::<K, V>(image, i));
}

/// An offset that is a multiple of the record width, below the end of the
/// image, is the offset of the record of index `offset / width`.
pub proof fn lemma_offset_index<K: Storable, V: Storable>(image: Seq<u8>, offset: int)
    requires
        image.len() % item_width::<K, V>() == 0,
        offset % item_width::<K, V>() as int == 0,
        0 <= offset,
        offset + item_width::<K, V>() <= image.len(),
    ensures
        0 <= offset / (item_width::<K, V>() as int),
        offset / (item_width::<K, V>() as int) < count_of::<K, V>(image),
        (offset / item_width::<K, V>() as int) * item_width::<K, V>() == offset,
{
    let w = item_width::<K, V>() as int;
    let len = image.len() as int;
    let i = offset / w;
    let n = len / w;
    vstd::arithmetic::div_mod::lemma_fundamental_div_mod(offset, w);
    vstd::arithmetic::div_mod::lemma_fundamental_div_mod(len, w);
    assert(w * i == i * w) by (nonlinear_arith);
    assert(0 <= i) by (nonlinear_arith)
        requires
            0 <= w * i,
            w > 0,
    ;
    assert(i < n) by (nonlinear_arith)
        requires
            w * i + w <= w * n,
            w > 0,
    ;
}

/// The rank of the key of the record of index `i`, read alone; `None` where
/// the bytes are no key.
pub open spec fn key_rank_at<K: Storable, V: Storable>(image: Seq<u8>, i: int) -> Option<int> {
    match key_of::<K>(slot_of::<K, V>(image, i)) {
        Some(key) => Some(key.rank()),
        None => None,
    }
}

/// What the halving comes to in any image, for a `target` that lies between
/// the keys at `low` and at `high`: the key in the middle is read, and the
/// half on whose side `target` lies is halved again, until the two indices
/// are neighbours and the direction decides. A key that cannot be read ends
/// the search.
pub open spec fn halving<K: Storable, V: Storable>(
    image: Seq<u8>,
    direction: Option<RetrievalDirection>,
    target: int,
    low: int,
    high: int,
) -> Result<int, StoreError>
    decreases high - low,
{
    if high - low <= 1 {
        match direction {
            Some(RetrievalDirection::Forward) => Ok(high),
            Some(RetrievalDirection::Backward) => Ok(low),
            None => Err(StoreError::KeyNotFound),
        }
    } else {
        let center = low + (high - low) / 2;
        match key_rank_at::<K, V>(image, center) {
            None => Err(StoreError::Malformed),
            Some(key) => if target < key {
                halving::<K, V>(image, direction, target, low, center)
            } else if key < target {
                halving::<K, V>(image, direction, target, center, high)
            } else {
                Ok(center)
            },
        }
    }
}

/// What a search of the records of indices `first` to `last` comes to in any
/// image: the two ends of the range are looked at first, then the range is
/// halved. In an ordered image this is the outcome that `search_finds`
/// describes.
pub open spec fn search_outcome<K: Storable, V: Storable>(
    image: Seq<u8>,
    direction: Option<RetrievalDirection>,
    target: int,
    first: int,
    last: int,
) -> Result<int, StoreError> {
    if first == last {
        Err(StoreError::EmptyRange)
    } else {
        match (key_rank_at::<K, V>(image, first), key_rank_at::<K, V>(image, last)) {
            (None, _) => Err(StoreError::Malformed),
            (Some(start), end) => if target < start {
                if direction == Some(RetrievalDirection::Forward) {
                    Ok(first)
                } else {
                    Err(StoreError::BeforeRange)
                }
            } else if target == start {
                Ok(first)
            } else {
                match end {
                    None => Err(StoreError::Malformed),
                    Some(end) => if end < target {
                        if direction == Some(RetrievalDirection::Backward) {
                            Ok(last)
                        } else {
                            Err(StoreError::AfterRange)
                        }
                    } else if target == end {
                        Ok(last)
                    } else {
                        halving::<K, V>(image, direction, target, first, last)
                    },
                }
            },
        }
    }
}

/// Searches the records from the one at `start_offset` to the one at
/// `end_offset` for `search_key`.
///
/// Where every record of the image can be read and the keys ascend, the
/// outcome is the one that `search_finds` describes. In any image it is the
/// one that `search_outcome` describes, and the offset returned is that of
/// a record of the range.
pub fn binary_search_for_key<K: Storable, V: Storable>(
    image: &[u8],
    retrieval_direction: Option<RetrievalDirection>,
    search_key: K,
    start_offset: u64,
    end_offset: u64,
) -> (r: Result<u64, StoreError>)
    requires
        item_width::<K, V>() <= usize::MAX,
        image@.len() % item_width::<K, V>() == 0,
        start_offset <= end_offset,
        start_offset < end_offset ==> {
            &&& start_offset as int % item_width::<K, V>() as int == 0
            &&& end_offset as int % item_width::<K, V>() as int == 0
            &&& end_offset + item_width::<K, V>() <= image@.len()
        },
    ensures
        r is Ok ==> {
            &&& start_offset <= r->Ok_0 <= end_offset
            &&& start_offset < end_offset
            &&& r->Ok_0 as int % item_width::<K, V>() as int == 0
        },
        as_index::<K, V>(r) == search_outcome::<K, V>(
            image@,
            retrieval_direction,
            search_key.rank(),
            start_offset as int / item_width::<K, V>() as int,
            end_offset as int / item_width::<K, V>() as int,
        ),
        is_ordered_image::<K, V>(image@) ==> search_finds(
            key_ranks(records_of::<K, V>(image@)),
            retrieval_direction,
            search_key.rank(),
            start_offset as int / item_width::<K, V>() as int,
            end_offset as int / item_width::<K, V>() as int,
            as_index::<K, V>(r),
        ),
{
    if start_offset == end_offset {
        return Err(StoreError::EmptyRange);
    }
    let item_size: usize = K::size() + 1 + V::size() + 1;
    let len: usize = image.len();
    let first: usize = start_offset as usize / item_size;
    let last: usize = end_offset as usize / item_size;
    let ghost ordered = is_ordered_image::<K, V>(image@);
    let ghost target = search_key.rank();
    proof {
        lemma_offset_index::<K, V>(image@, end_offset as int);
        lemma_offset_index::<K, V>(image@, start_offset as int);
        assert(first < last) by (nonlinear_arith)
            requires
                first * item_size == start_offset,
                last * item_size == end_offset,
                start_offset < end_offset,
        ;
        lemma_slot::<K, V>(image@, first as int);
        lemma_slot::<K, V>(image@, last as int);
    }
    // The two ends of the range come first.
    let start_key = read_key::<K>(image, start_offset as usize)?;
    if search_key.precedes(start_key) {
        return if retrieval_direction != Some(RetrievalDirection::Forward) {
            Err(StoreError::BeforeRange)
        } else {
            Ok(start_offset)
        };
    } else if !start_key.precedes(search_key) {
        return Ok(start_offset);
    }
    let end_key = read_key::<K>(image, end_offset as usize)?;
    if end_key.precedes(search_key) {
        return if retrieval_direction != Some(RetrievalDirection::Backward) {
            Err(StoreError::AfterRange)
        } else {
            Ok(end_offset)
        };
    } else if !search_key.precedes(end_key) {
        return Ok(end_offset);
    }
    // The key lies strictly between the keys at `low` and at `high`.
    let mut low: usize = first;
    let mut high: usize = last;
    while high - low > 1
        invariant
            item_size == item_width::<K, V>(),
            image@.len() % item_width::<K, V>() == 0,
            len == image@.len(),
            start_offset < end_offset,
            first <= low < high <= last < count_of::<K, V>(image@),
            first * item_size == start_offset,
            last * item_size == end_offset,
            first == start_offset as int / item_width::<K, V>() as int,
            last == end_offset as int / item_width::<K, V>() as int,
            ordered == is_ordered_image::<K, V>(image@),
            target == search_key.rank(),
            search_outcome::<K, V>(image@, retrieval_direction, target, first as int, last as int)
                == halving::<K, V>(image@, retrieval_direction, target, low as int, high as int),
            ordered ==> rank_at::<K, V>(image@, low as int) < target < rank_at::<K, V>(
                image@,
                high as int,
            ),
        decreases high - low,
    {
        let center: usize = low + (high - low) / 2;
        proof {
            lemma_slot::<K, V>(image@, center as int);
        }
        let center_offset: usize = center * item_size;
        let center_key = read_key::<K>(image, center_offset)?;
        if search_key.precedes(center_key) {
            high = center;
        } else if center_key.precedes(search_key) {
            low = center;
        } else {
            proof {
                lemma_index_between(first as int, center as int, last as int, item_size as int);
            }
            return Ok(center_offset as u64);
        }
    }
    proof {
        lemma_slot::<K, V>(image@, low as int);
        lemma_slot::<K, V>(image@, high as int);
        lemma_index_between(first as int, low as int, last as int, item_size as int);
        lemma_index_between(first as int, high as int, last as int, item_size as int);
        if ordered {
            assert forall|i: int| first <= i <= last implies rank_at::<K, V>(image@, i)
                != target by {
                if i <= low {
                    assert(i == low || rank_at::<K, V>(image@, i) < rank_at::<K, V>(
                        image@,
                        low as int,
                    ));
                } else {
                    assert(i == high || rank_at::<K, V>(image@, high as int) < rank_at::<K, V>(
                        image@,
                        i,
                    ));
                }
            }
            if first < low {
                assert(rank_at::<K, V>(image@, first as int) < rank_at::<K, V>(
                    image@,
                    low as int,
                ));
            }
            if high < last {
                assert(rank_at::<K, V>(image@, high as int) < rank_at::<K, V>(
                    image@,
                    last as int,
                ));
            }
        }
    }
    match retrieval_direction {
        Some(RetrievalDirection::Forward) => Ok((high * item_size) as u64),
        Some(RetrievalDirection::Backward) => Ok((low * item_size) as u64),
        None => Err(StoreError::KeyNotFound),
    }
}

/// An index between two others has its offset between theirs.
proof fn lemma_index_between(first: int, i: int, last: int, width: int)
    requires
        0 <= first <= i <= last,
        width > 0,
    ensures
        first * width <= i * width <= last * width,
        (i * width) / width == i,
        (i * width) % width == 0,
{
    assert(first * width <= i * width <= last * width) by (nonlinear_arith)
        requires
            0 <= first <= i <= last,
            width > 0,
    ;
    assert(i * width == width * i) by (nonlinear_arith);
    vstd::arithmetic::div_mod::lemma_div_multiples_vanish(i, width);
    vstd::arithmetic::div_mod::lemma_mod_multiples_basic(i, width);
}

} // verus!
