//! The file store read by time: the record nearest to a time stamp, and the
//! records of a range.

use core::ops::Range;
use vstd::prelude::*;
use crate::error::{ErrorKind, StoreError};
use crate::key_value_store::{records_or_failure, Data, KeyValueStore, Retrieval, Storable};
use crate::nearest::{ascending, key_ranks, lemma_below, lemma_below_is};
use crate::storage::file::record::{item_width, read_record, record_of};
use crate::storage::file::search::{
    binary_search_for_key, lemma_offset_index, lemma_ordered_keys, lemma_reads, lemma_slot,
    search_outcome,
};
use crate::storage::file::{slot_of, FileStorage};
use crate::time_series::{lemma_window_is_run, RetrievalDirection, TimeSeries, Timestamp};

verus! {

/// What a retrieval of one record came to: the record, or the failure.
pub open spec fn record_or_failure<K, V>(r: Result<Retrieval<K, V>, StoreError>) -> Result<
    (K, V),
    StoreError,
> {
    match r {
        Ok(retrieval) => Ok(retrieval.single()->Some_0),
        Err(e) => Err(e),
    }
}

/// Nothing, where the failure tells that no record lies before the bound;
/// any other failure stays the failure it is.
pub open spec fn nothing_before<V>(e: StoreError) -> Result<Seq<(Timestamp, V)>, StoreError> {
    if e.spec_kind() == ErrorKind::InvalidInput || e.spec_kind() == ErrorKind::NotFound {
        Ok(Seq::empty())
    } else {
        Err(e)
    }
}

impl<V: Storable> FileStorage<Timestamp, V> {
    /// What `retrieve_nearest` comes to in any store: the search, then the
    /// reading of the record that was found.
    pub open spec fn nearest_outcome(
        &self,
        timestamp: Timestamp,
        direction: Option<RetrievalDirection>,
    ) -> Result<(Timestamp, V), StoreError> {
        match search_outcome::<Timestamp, V>(
            self.image(),
            direction,
            timestamp as int,
            0,
            self.last_index(),
        ) {
            Ok(i) => match record_of::<Timestamp, V>(slot_of::<Timestamp, V>(self.image(), i)) {
                Some(record) => Ok(record),
                None => Err(StoreError::Malformed),
            },
            Err(e) => Err(e),
        }
    }

    /// What `retrieve_from` comes to in any store: nothing for a time stamp
    /// after the last key; else the search for the first record at or after
    /// it, and the reading from there to the end.
    pub open spec fn from_outcome(&self, timestamp: Timestamp) -> Result<
        Seq<(Timestamp, V)>,
        StoreError,
    > {
        if timestamp > self.last_key() {
            Ok(Seq::empty())
        } else {
            match search_outcome::<Timestamp, V>(
                self.image(),
                Some(RetrievalDirection::Forward),
                timestamp as int,
                0,
                self.last_index(),
            ) {
                Ok(i) => self.run_read(i, self.items() as int),
                Err(e) => Err(e),
            }
        }
    }

    /// What `retrieve_to` comes to in any store: the reading from the first
    /// record to the last one before the time stamp.
    pub open spec fn to_outcome(&self, timestamp: Timestamp) -> Result<
        Seq<(Timestamp, V)>,
        StoreError,
    > {
        match self.scan_end(timestamp) {
            Ok(i) => self.run_read(0, i + 1),
            Err(e) => nothing_before(e),
        }
    }

    /// What `retrieve_range` comes to in any store: nothing for a start
    /// after the last key; else the reading from the first record at or after
    /// the start to the last one before the end, if there is any between.
    pub open spec fn range_outcome(&self, from: Timestamp, to: Timestamp) -> Result<
        Seq<(Timestamp, V)>,
        StoreError,
    > {
        if from > self.last_key() {
            Ok(Seq::empty())
        } else {
            match search_outcome::<Timestamp, V>(
                self.image(),
                Some(RetrievalDirection::Forward),
                from as int,
                0,
                self.last_index(),
            ) {
                Ok(first) => match self.scan_end(to) {
                    Ok(last) => if last < first {
                        Ok(Seq::empty())
                    } else {
                        self.run_read(first, last + 1)
                    },
                    Err(e) => nothing_before(e),
                },
                Err(e) => Err(e),
            }
        }
    }

    /// What an intact store keeps at hand, said of its records.
    pub proof fn lemma_ends(&self)
        requires
            self.wf(),
            self.intact(),
        ensures
            self.records().len() == self.items(),
            ascending(key_ranks(self.records())),
            self.items() > 0 ==> self.first_key() == self.records()[0].0 && self.last_key()
                == self.records().last().0,
            self.items() == 0 ==> self.first_key() == 0 && self.last_key() == 0,
    {
        self.lemma_count();
        lemma_ordered_keys::<Timestamp, V>(self.image());
        if self.items() > 0 {
            lemma_slot::<Timestamp, V>(self.image(), 0);
            lemma_slot::<Timestamp, V>(self.image(), self.items() - 1);
        }
    }
}

impl<V: Storable> TimeSeries<V> for FileStorage<Timestamp, V> {
    fn retrieve_nearest(
        &self,
        timestamp: Timestamp,
        retrieval_direction: Option<RetrievalDirection>,
    ) -> (r: Result<Retrieval<Timestamp, V>, StoreError>)
        ensures
            record_or_failure(r) == self.nearest_outcome(timestamp, retrieval_direction),
    {
        let len: usize = self.image.len();
        proof {
            self.lemma_count();
            self.lemma_end_offset();
            if self.intact() {
                self.lemma_ends();
            }
        }
        let record_offset: u64 = binary_search_for_key::<Timestamp, V>(
            self.image.as_slice(),
            retrieval_direction,
            timestamp,
            0,
            self.end_offset,
        )?;
        proof {
            lemma_offset_index::<Timestamp, V>(self.image(), record_offset as int);
            let i = record_offset as int / item_width::<Timestamp, V>() as int;
            lemma_slot::<Timestamp, V>(self.image(), i);
            assert(self.image().subrange(
                record_offset as int,
                record_offset + item_width::<Timestamp, V>(),
            ) =~= slot_of::<Timestamp, V>(self.image(), i));
            if self.intact() {
                lemma_reads::<Timestamp, V>(
                    self.image(),
                    record_offset as int / item_width::<Timestamp, V>() as int,
                );
            }
        }
        let record = read_record::<Timestamp, V>(self.image.as_slice(), record_offset as usize)?;
        let found = Retrieval::new(Data::Single(record));
        proof {
            if self.intact() {
                let i = record_offset as int / item_width::<Timestamp, V>() as int;
                assert(found.single() == Some(self.records()[i]));
            }
        }
        Ok(found)
    }

    fn retrieve_all(&self) -> (r: Result<Retrieval<Timestamp, V>, StoreError>)
        ensures
            records_or_failure(r) == self.run_read(0, self.items() as int),
    {
        let results = self.read_run(0, self.items)?;
        proof {
            self.lemma_count();
            assert(self.records().subrange(0, self.items as int) =~= self.records());
        }
        Ok(Retrieval::new(Data::Many(results)))
    }

    fn retrieve_from(&self, timestamp: Timestamp) -> (r: Result<
        Retrieval<Timestamp, V>,
        StoreError,
    >)
        ensures
            records_or_failure(r) == self.from_outcome(timestamp),
    {
        let len: usize = self.image.len();
        let ghost keys = key_ranks(self.records());
        proof {
            self.lemma_count();
            self.lemma_end_offset();
            if self.intact() {
                self.lemma_ends();
                lemma_window_is_run(self.records(), timestamp as int, u64::MAX + 1);
                lemma_below(keys, timestamp as int);
                lemma_below(keys, u64::MAX + 1);
            }
        }
        // Don't use self.find_from because that wants to grab the record on or before the timestamp, not on or after
        let from_offset: u64 = if timestamp <= self.last_key {
            binary_search_for_key::<Timestamp, V>(
                self.image.as_slice(),
                Some(RetrievalDirection::Forward),
                timestamp,
                0,
                self.end_offset,
            )?
        } else {
            proof {
                if self.intact() && self.items >= 2 {
                    lemma_below_is(keys, timestamp as int, self.items as int);
                    lemma_below_is(keys, u64::MAX + 1, self.items as int);
                    assert(self.records().subrange(self.items as int, self.items as int)
                        =~= Seq::<(Timestamp, V)>::empty());
                }
            }
            return Ok(Retrieval::new(Data::Many(Vec::new())));
        };
        let from_item: usize = from_offset as usize / self.item_size;
        proof {
            lemma_offset_index::<Timestamp, V>(self.image(), from_offset as int);
            if self.intact() {
                lemma_below_is(keys, timestamp as int, from_item as int);
                lemma_below_is(keys, u64::MAX + 1, self.items as int);
            }
        }
        let results = self.read_run(from_item, self.items)?;
        Ok(Retrieval::new(Data::Many(results)))
    }

    fn retrieve_to(&self, timestamp: Timestamp) -> (r: Result<Retrieval<Timestamp, V>, StoreError>)
        ensures
            records_or_failure(r) == self.to_outcome(timestamp),
    {
        let len: usize = self.image.len();
        let ghost keys = key_ranks(self.records());
        proof {
            self.lemma_count();
            if self.intact() {
                self.lemma_ends();
                lemma_window_is_run(self.records(), 0, timestamp as int);
                lemma_below(keys, 0);
                lemma_below(keys, timestamp as int);
                lemma_below_is(keys, 0, 0);
            }
        }
        let to_offset: u64 = match self.find_to(timestamp) {
            Ok(offset) => offset,
            Err(error) => {
                return match error.kind() {
                    ErrorKind::InvalidInput | ErrorKind::NotFound => {
                        proof {
                            if self.intact() && self.items >= 2 {
                                lemma_below_is(keys, timestamp as int, 0);
                                assert(self.records().subrange(0, 0) =~= Seq::<
                                    (Timestamp, V),
                                >::empty());
                            }
                        }
                        Ok(Retrieval::new(Data::Many(Vec::new())))
                    },
                    _ => Err(error),
                };
            },
        };
        proof {
            lemma_offset_index::<Timestamp, V>(self.image(), to_offset as int);
        }
        let to_item: usize = to_offset as usize / self.item_size + 1;
        let results = self.read_run(0, to_item)?;
        Ok(Retrieval::new(Data::Many(results)))
    }

    fn retrieve_range(&self, range: Range<Timestamp>) -> (r: Result<
        Retrieval<Timestamp, V>,
        StoreError,
    >)
        ensures
            records_or_failure(r) == self.range_outcome(range.start, range.end),
    {
        let len: usize = self.image.len();
        let ghost keys = key_ranks(self.records());
        let ghost from = range.start as int;
        let ghost to = range.end as int;
        proof {
            self.lemma_count();
            self.lemma_end_offset();
            if self.intact() {
                self.lemma_ends();
                lemma_window_is_run(self.records(), from, to);
                lemma_below(keys, from);
                lemma_below(keys, to);
            }
        }
        // Don't use self.find_from because that wants to grab the record on or before the timestamp, not on or after
        let from_offset: u64 = if range.start <= self.last_key {
            binary_search_for_key::<Timestamp, V>(
                self.image.as_slice(),
                Some(RetrievalDirection::Forward),
                range.start,
                0,
                self.end_offset,
            )?
        } else {
            proof {
                if self.intact() && self.items >= 2 {
                    lemma_below_is(keys, from, self.items as int);
                    assert(self.records().subrange(self.items as int, self.items as int)
                        =~= Seq::<(Timestamp, V)>::empty());
                }
            }
            return Ok(Retrieval::new(Data::Many(Vec::new())));
        };
        let from_item: usize = from_offset as usize / self.item_size;
        proof {
            lemma_offset_index::<Timestamp, V>(self.image(), from_offset as int);
            if self.intact() {
                lemma_below_is(keys, from, from_item as int);
            }
        }
        let to_offset: u64 = match self.find_to(range.end) {
            Ok(offset) => offset,
            Err(error) => {
                return match error.kind() {
                    ErrorKind::InvalidInput | ErrorKind::NotFound => {
                        proof {
                            if self.intact() && self.items >= 2 {
                                lemma_below_is(keys, to, 0);
                                assert(self.records().subrange(0, 0) =~= Seq::<
                                    (Timestamp, V),
                                >::empty());
                            }
                        }
                        Ok(Retrieval::new(Data::Many(Vec::new())))
                    },
                    _ => Err(error),
                };
            },
        };
        proof {
            lemma_offset_index::<Timestamp, V>(self.image(), to_offset as int);
        }
        let to_item: usize = to_offset as usize / self.item_size + 1;
        // A range that ends at or before its start holds nothing.
        if to_item <= from_item {
            proof {
                if self.intact() {
                    assert(self.records().subrange(from_item as int, from_item as int)
                        =~= Seq::<(Timestamp, V)>::empty());
                }
            }
            return Ok(Retrieval::new(Data::Many(Vec::new())));
        }
        let results = self.read_run(from_item, to_item)?;
        Ok(Retrieval::new(Data::Many(results)))
    }
}

} // verus!
