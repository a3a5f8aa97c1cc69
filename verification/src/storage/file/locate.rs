//! Where a scan of the file store begins and ends, and the reading of a run
//! of records.

use vstd::prelude::*;
use crate::error::StoreError;
use crate::key_value_store::{read_or_failure, KeyValueStore, Storable};
use crate::nearest::{
    below, find_from_outcome, find_to_outcome, key_ranks, lemma_below, lemma_below_is,
    search_finds,
};
use crate::storage::file::record::{item_width, read_key, read_record, record_of};
use crate::storage::file::record::key_of;
use crate::storage::file::search::{
    as_index, binary_search_for_key, key_rank_at, lemma_ordered_keys, lemma_reads, lemma_slot,
    search_outcome,
};
use crate::storage::file::{
    count_of, is_ordered_image, readable_run, records_of, slot_of, FileStorage,
};
use crate::time_series::RetrievalDirection;

verus! {

/// The outcome of `find_from`, with the byte offset turned into the index of
/// its record.
pub open spec fn as_located<K: Storable, V: Storable>(r: Result<(K, u64), StoreError>) -> Result<
    (K, int),
    StoreError,
> {
    match r {
        Ok((key, offset)) => Ok((key, offset as int / item_width::<K, V>() as int)),
        Err(e) => Err(e),
    }
}

impl<K: Storable, V: Storable> FileStorage<K, V> {
    /// The index of the last record; zero in a store without records.
    pub open spec fn last_index(&self) -> int {
        if self.items() > 1 {
            self.items() - 1
        } else {
            0
        }
    }

    /// What `find_from` comes to in any store: the search for the last record
    /// at or before `key`, or the first record where `key` lies before the
    /// first key; then the reading of the key that was found, of which and
    /// of `key` the greater is returned.
    pub open spec fn scan_start(&self, key: K) -> Result<(K, int), StoreError> {
        let start = if key.rank() < self.first_key().rank() {
            if self.items() == 0 {
                Err(StoreError::UnexpectedEof)
            } else {
                Ok(0int)
            }
        } else {
            search_outcome::<K, V>(
                self.image(),
                Some(RetrievalDirection::Backward),
                key.rank(),
                0,
                self.last_index(),
            )
        };
        match start {
            Ok(i) => match key_of::<K>(slot_of::<K, V>(self.image(), i)) {
                Some(found) => Ok(
                    (
                        if key.rank() < found.rank() {
                            found
                        } else {
                            key
                        },
                        i,
                    ),
                ),
                None => Err(StoreError::Malformed),
            },
            Err(e) => Err(e),
        }
    }

    /// What `find_to` comes to in any store: the search for the last record
    /// at or before `key`, then the reading of the key that was found; where
    /// it is `key` itself, the record before it is meant.
    pub open spec fn scan_end(&self, key: K) -> Result<int, StoreError> {
        match search_outcome::<K, V>(
            self.image(),
            Some(RetrievalDirection::Backward),
            key.rank(),
            0,
            self.last_index(),
        ) {
            Ok(i) => match key_rank_at::<K, V>(self.image(), i) {
                Some(found) => if found != key.rank() {
                    Ok(i)
                } else if i > 0 {
                    Ok(i - 1)
                } else {
                    Err(StoreError::BoundAtFirstRecord)
                },
                None => Err(StoreError::Malformed),
            },
            Err(e) => Err(e),
        }
    }

    /// What the reading of the records of the indices from `from` up to, and
    /// without, `to` comes to in any store.
    pub open spec fn run_read(&self, from: int, to: int) -> Result<Seq<(K, V)>, StoreError> {
        if to <= self.items() && readable_run::<K, V>(self.image(), from, to) {
            Ok(self.records().subrange(from, to))
        } else if readable_run::<K, V>(self.image(), from, self.items() as int) {
            Err(StoreError::UnexpectedEof)
        } else {
            Err(StoreError::Malformed)
        }
    }

    /// The offset of the last record is that of the index `items - 1`.
    pub proof fn lemma_end_offset(&self)
        requires
            self.wf(),
        ensures
            self.end_offset() as int / item_width::<K, V>() as int == self.last_index(),
            self.end_offset() as int % item_width::<K, V>() as int == 0,
            self.items() > 0 ==> self.end_offset() + item_width::<K, V>() <= self.image().len(),
    {
        self.lemma_count();
        if self.items() > 1 {
            lemma_slot::<K, V>(self.image(), self.items() - 1);
        }
        if self.items() == 1 {
            lemma_slot::<K, V>(self.image(), 0);
        }
    }

    /// Finds the key and offset of the first record that occurs on or before the search key.
    /// If the search key is before the first record, it returns the key and offset of the first record.
    ///
    /// The key returned is the greater of the two: the search key, unless it
    /// lies before the first record.
    pub fn find_from(&self, search_key: K) -> (r: Result<(K, u64), StoreError>)
        requires
            self.wf(),
        ensures
            r is Ok ==> {
                &&& r->Ok_0.1 as int % item_width::<K, V>() as int == 0
                &&& r->Ok_0.1 + item_width::<K, V>() <= self.image().len()
            },
            as_located::<K, V>(r) == self.scan_start(search_key),
            self.intact() ==> as_located::<K, V>(r) == find_from_outcome(
                self.records(),
                search_key,
            ),
    {
        let ghost keys = key_ranks(self.records());
        let len: usize = self.image.len();
        proof {
            self.lemma_count();
            self.lemma_end_offset();
            if self.items > 0 {
                lemma_slot::<K, V>(self.image(), 0);
            }
            if self.intact() {
                lemma_ordered_keys::<K, V>(self.image());
                if self.items > 0 {
                    lemma_reads::<K, V>(self.image(), 0);
                }
            }
        }
        let from_offset: u64 = if !search_key.precedes(self.first_key) {
            binary_search_for_key::<K, V>(
                self.image.as_slice(),
                Some(RetrievalDirection::Backward),
                search_key,
                0,
                self.end_offset,
            )?
        } else if self.items == 0 {
            return Err(StoreError::UnexpectedEof);
        } else {
            0
        };
        let ghost index = from_offset as int / item_width::<K, V>() as int;
        proof {
            if from_offset > 0 {
                crate::storage::file::search::lemma_offset_index::<K, V>(
                    self.image(),
                    from_offset as int,
                );
            } else {
                assert(0int / item_width::<K, V>() as int == 0);
            }
            if self.items > 0 {
                lemma_slot::<K, V>(self.image(), index);
                if self.intact() {
                    lemma_reads::<K, V>(self.image(), index);
                }
            }
        }
        let key = read_key::<K>(self.image.as_slice(), from_offset as usize)?;
        let from_key = if search_key.precedes(key) {
            key
        } else {
            search_key
        };
        proof {
            if self.intact() && !(search_key.rank() < self.first_key.rank()) {
                assert(keys[index] <= search_key.rank());
                assert(index == keys.len() - 1 || search_key.rank() < keys[index + 1]);
                lemma_below_is(keys, search_key.rank() + 1, index + 1);
            }
        }
        Ok((from_key, from_offset))
    }

    /// Finds the offset of the first record that occurs before the search key.
    ///
    /// A search key that is stored is excluded itself; where it is the key
    /// of the first record, nothing lies before it and `BoundAtFirstRecord`
    /// comes back.
    pub fn find_to(&self, search_key: K) -> (r: Result<u64, StoreError>)
        requires
            self.wf(),
        ensures
            r is Ok ==> {
                &&& r->Ok_0 as int % item_width::<K, V>() as int == 0
                &&& r->Ok_0 + item_width::<K, V>() <= self.image().len()
            },
            as_index::<K, V>(r) == self.scan_end(search_key),
            self.intact() ==> as_index::<K, V>(r) == find_to_outcome(
                key_ranks(self.records()),
                search_key.rank(),
            ),
    {
        let ghost keys = key_ranks(self.records());
        let len: usize = self.image.len();
        proof {
            self.lemma_count();
            self.lemma_end_offset();
            if self.intact() {
                lemma_ordered_keys::<K, V>(self.image());
            }
        }
        let to_offset: u64 = binary_search_for_key::<K, V>(
            self.image.as_slice(),
            Some(RetrievalDirection::Backward),
            search_key,
            0,
            self.end_offset,
        )?;
        let ghost index = to_offset as int / item_width::<K, V>() as int;
        proof {
            crate::storage::file::search::lemma_offset_index::<K, V>(
                self.image(),
                to_offset as int,
            );
            lemma_slot::<K, V>(self.image(), index);
            if self.intact() {
                lemma_reads::<K, V>(self.image(), index);
            }
        }
        let to_key = read_key::<K>(self.image.as_slice(), to_offset as usize)?;
        // find_to is exclusive.  If the bounding key is found exactly, exclude that record from the result.
        if to_key.precedes(search_key) || search_key.precedes(to_key) {
            proof {
                if self.intact() {
                    assert(keys[0] <= keys[index]);
                    lemma_below_is(keys, search_key.rank(), index + 1);
                }
            }
            Ok(to_offset)
        } else if to_offset > 0 {
            proof {
                assert(index > 0);
                lemma_slot::<K, V>(self.image(), index - 1);
                if self.intact() {
                    assert(keys[0] < keys[index]);
                    lemma_below_is(keys, search_key.rank(), index);
                }
            }
            Ok(to_offset - self.item_size as u64)
        } else {
            Err(StoreError::BoundAtFirstRecord)
        }
    }

    /// Reads every record and tells whether the store is intact: whether all
    /// of them can be read and their keys ascend strictly. Opening a store
    /// looks at its first and its last key only.
    pub fn is_intact(&self) -> (b: bool)
        requires
            self.wf(),
        ensures
            b == self.intact(),
    {
        let len: usize = self.image.len();
        let mut previous: K = self.first_key;
        let mut i: usize = 0;
        proof {
            self.lemma_count();
        }
        while i < self.items
            invariant
                self.wf(),
                len == self.image().len(),
                i <= self.items(),
                count_of::<K, V>(self.image()) == self.items(),
                self.image().len() % item_width::<K, V>() == 0,
                forall|k: int|
                    0 <= k < i ==> (#[trigger] record_of::<K, V>(
                        slot_of::<K, V>(self.image(), k),
                    )) is Some,
                forall|j: int, k: int|
                    0 <= j < k < i ==> (#[trigger] record_of::<K, V>(
                        slot_of::<K, V>(self.image(), j),
                    ))->Some_0.0.rank() < (#[trigger] record_of::<K, V>(
                        slot_of::<K, V>(self.image(), k),
                    ))->Some_0.0.rank(),
                i > 0 ==> previous == record_of::<K, V>(
                    slot_of::<K, V>(self.image(), i - 1),
                )->Some_0.0,
            decreases self.items() - i,
        {
            proof {
                lemma_slot::<K, V>(self.image(), i as int);
                assert(i * self.item_size <= self.items * self.item_size) by (nonlinear_arith)
                    requires
                        i <= self.items,
                ;
                assert(self.image().subrange(
                    i * item_width::<K, V>(),
                    i * item_width::<K, V>() + item_width::<K, V>(),
                ) =~= slot_of::<K, V>(self.image(), i as int));
            }
            let record = match read_record::<K, V>(self.image.as_slice(), i * self.item_size) {
                Ok(record) => record,
                Err(_) => {
                    assert(!(record_of::<K, V>(slot_of::<K, V>(self.image(), i as int)) is Some));
                    return false;
                },
            };
            if i > 0 && !previous.precedes(record.0) {
                proof {
                    let before = record_of::<K, V>(slot_of::<K, V>(self.image(), i - 1));
                    let here = record_of::<K, V>(slot_of::<K, V>(self.image(), i as int));
                    assert(!(before->Some_0.0.rank() < here->Some_0.0.rank()));
                }
                return false;
            }
            proof {
                let here = record_of::<K, V>(slot_of::<K, V>(self.image(), i as int));
                assert forall|j: int, k: int| 0 <= j < k < i + 1 implies (#[trigger] record_of::<
                    K,
                    V,
                >(slot_of::<K, V>(self.image(), j)))->Some_0.0.rank() < (#[trigger] record_of::<
                    K,
                    V,
                >(slot_of::<K, V>(self.image(), k)))->Some_0.0.rank() by {
                    if k == i && j < i - 1 {
                        let before = record_of::<K, V>(slot_of::<K, V>(self.image(), i - 1));
                        assert(record_of::<K, V>(slot_of::<K, V>(self.image(), j))->Some_0.0.rank()
                            < before->Some_0.0.rank());
                    }
                }
            }
            previous = record.0;
            i += 1;
        }
        true
    }

    /// Reads the records of the indices from `from_item` up to, and without,
    /// `to_item`. A record that cannot be read is `Malformed`; to read beyond
    /// the last record is `UnexpectedEof`.
    pub fn read_run(&self, from_item: usize, to_item: usize) -> (r: Result<
        Vec<(K, V)>,
        StoreError,
    >)
        requires
            self.wf(),
            from_item <= to_item <= self.items() + 1,
            from_item <= self.items(),
        ensures
            read_or_failure(r) == self.run_read(from_item as int, to_item as int),
            self.intact() ==> readable_run::<K, V>(self.image(), 0, self.items() as int),
    {
        let mut results: Vec<(K, V)> = Vec::new();
        let mut i: usize = from_item;
        let len: usize = self.image.len();
        proof {
            self.lemma_count();
        }
        while i < to_item
            invariant
                self.wf(),
                len == self.image().len(),
                from_item <= i <= to_item <= self.items() + 1,
                count_of::<K, V>(self.image()) == self.items(),
                self.image().len() % item_width::<K, V>() == 0,
                i <= self.items(),
                results@ == self.records().subrange(from_item as int, i as int),
                readable_run::<K, V>(self.image(), from_item as int, i as int),
            decreases to_item - i,
        {
            proof {
                assert(i * self.item_size <= self.items * self.item_size) by (nonlinear_arith)
                    requires
                        i <= self.items,
                ;
                if i < self.items {
                    lemma_slot::<K, V>(self.image(), i as int);
                    assert(self.image().subrange(
                        i * item_width::<K, V>(),
                        i * item_width::<K, V>() + item_width::<K, V>(),
                    ) =~= slot_of::<K, V>(self.image(), i as int));
                } else {
                    assert(i * self.item_size + item_width::<K, V>() > self.image().len());
                }
            }
            let record = match read_record::<K, V>(self.image.as_slice(), i * self.item_size) {
                Ok(record) => record,
                Err(e) => {
                    proof {
                        if i < self.items {
                            assert(!(record_of::<K, V>(slot_of::<K, V>(self.image(), i as int))
                                is Some));
                        }
                    }
                    return Err(e);
                },
            };
            results.push(record);
            i += 1;
            assert(results@ =~= self.records().subrange(from_item as int, i as int));
        }
        Ok(results)
    }
}

} // verus!
