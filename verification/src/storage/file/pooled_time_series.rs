//! The file store read in buckets.

use core::ops::Range;
use vstd::prelude::*;
use crate::buckets::{gather_buckets, gathered};
use crate::error::{ErrorKind, StoreError};
use crate::key_value_store::{records_or_failure, Data, KeyValueStore, Retrieval, Storable};
use crate::pooled_time_series::{Poolable, PooledTimeSeries, PoolingOptions};
use crate::storage::file::record::item_width;
use crate::storage::file::search::lemma_offset_index;
use crate::storage::file::time_series::nothing_before;
use crate::storage::file::FileStorage;
use crate::time_series::Timestamp;

verus! {

/// The records pooled from `anchor` on, where they could be read.
pub open spec fn pooled_or_failure<V: Poolable>(
    options: PoolingOptions,
    anchor: Timestamp,
    read: Result<Seq<(Timestamp, V)>, StoreError>,
) -> Result<Seq<(Timestamp, V)>, StoreError> {
    match read {
        Ok(records) => gathered(options, anchor, records),
        Err(e) => Err(e),
    }
}

impl<V: Poolable> FileStorage<Timestamp, V> {
    /// What `pool_all` comes to in any store: all records, which are one at
    /// least, pooled from the first key on.
    pub open spec fn pool_all_outcome(&self, options: PoolingOptions) -> Result<
        Seq<(Timestamp, V)>,
        StoreError,
    > {
        if options.interval == 0 {
            Err(StoreError::InvalidInterval)
        } else {
            pooled_or_failure(
                options,
                self.first_key(),
                self.run_read(0, self.last_index() + 1),
            )
        }
    }

    /// What `pool_from` comes to in any store: the records from where the
    /// scan starts to the end, pooled from the anchor of the scan on.
    pub open spec fn pool_from_outcome(
        &self,
        timestamp: Timestamp,
        options: PoolingOptions,
    ) -> Result<Seq<(Timestamp, V)>, StoreError> {
        if options.interval == 0 {
            Err(StoreError::InvalidInterval)
        } else {
            match self.scan_start(timestamp) {
                Ok((anchor, first)) => pooled_or_failure(
                    options,
                    anchor,
                    self.run_read(first, self.items() as int),
                ),
                Err(e) => Err(e),
            }
        }
    }

    /// What `pool_to` comes to in any store: the records from the first to
    /// the last one before the time stamp, pooled from the first key on.
    pub open spec fn pool_to_outcome(
        &self,
        timestamp: Timestamp,
        options: PoolingOptions,
    ) -> Result<Seq<(Timestamp, V)>, StoreError> {
        if options.interval == 0 {
            Err(StoreError::InvalidInterval)
        } else {
            match self.scan_end(timestamp) {
                Ok(last) => pooled_or_failure(
                    options,
                    self.first_key(),
                    self.run_read(0, last + 1),
                ),
                Err(e) => nothing_before(e),
            }
        }
    }

    /// What `pool_range` comes to in any store: the records from where the
    /// scan starts to the last one before the end of the range, pooled from
    /// the anchor of the scan on; nothing where the scan ends before it
    /// starts, or at the record it starts at and that record lies before the
    /// range.
    pub open spec fn pool_range_outcome(
        &self,
        from: Timestamp,
        to: Timestamp,
        options: PoolingOptions,
    ) -> Result<Seq<(Timestamp, V)>, StoreError> {
        if options.interval == 0 {
            Err(StoreError::InvalidInterval)
        } else {
            match self.scan_start(from) {
                Ok((anchor, first)) => match self.scan_end(to) {
                    Ok(last) => if last < first {
                        Ok(Seq::empty())
                    } else {
                        match self.run_read(first, last + 1) {
                            Ok(records) => if last == first && records[0].0 < from {
                                Ok(Seq::empty())
                            } else {
                                gathered(options, anchor, records)
                            },
                            Err(e) => Err(e),
                        }
                    },
                    Err(e) => nothing_before(e),
                },
                Err(e) => Err(e),
            }
        }
    }
}

impl<V: Poolable> PooledTimeSeries<V> for FileStorage<Timestamp, V> {
    fn pool_all(&self, pooling_options: PoolingOptions) -> (r: Result<
        Retrieval<Timestamp, V>,
        StoreError,
    >)
        ensures
            records_or_failure(r) == self.pool_all_outcome(pooling_options),
    {
        if pooling_options.interval == 0 {
            return Err(StoreError::InvalidInterval);
        }
        let len: usize = self.image.len();
        proof {
            self.lemma_count();
            self.lemma_end_offset();
            if self.intact() {
                self.lemma_ends();
            }
        }
        // Gather all buckets between the beginning and end of the file
        let to_item: usize = self.end_offset as usize / self.item_size + 1;
        let records = self.read_run(0, to_item)?;
        proof {
            assert(self.records().subrange(0, self.items as int) =~= self.records());
        }
        let values = gather_buckets::<V>(records.as_slice(), pooling_options, self.first_key)?;
        Ok(Retrieval::new(Data::Many(values)))
    }

    fn pool_from(&self, timestamp: Timestamp, pooling_options: PoolingOptions) -> (r: Result<
        Retrieval<Timestamp, V>,
        StoreError,
    >)
        ensures
            records_or_failure(r) == self.pool_from_outcome(timestamp, pooling_options),
    {
        if pooling_options.interval == 0 {
            return Err(StoreError::InvalidInterval);
        }
        let len: usize = self.image.len();
        proof {
            self.lemma_count();
            self.lemma_end_offset();
            if self.intact() {
                self.lemma_ends();
            }
        }
        let (from_timestamp, from_offset) = self.find_from(timestamp)?;
        proof {
            lemma_offset_index::<Timestamp, V>(self.image(), from_offset as int);
        }
        let from_item: usize = from_offset as usize / self.item_size;
        let records = self.read_run(from_item, self.items)?;
        proof {
            assert(self.records().subrange(from_item as int, self.items as int)
                =~= self.records().skip(from_item as int));
        }
        let values = gather_buckets::<V>(records.as_slice(), pooling_options, from_timestamp)?;
        Ok(Retrieval::new(Data::Many(values)))
    }

    fn pool_to(&self, timestamp: Timestamp, pooling_options: PoolingOptions) -> (r: Result<
        Retrieval<Timestamp, V>,
        StoreError,
    >)
        ensures
            records_or_failure(r) == self.pool_to_outcome(timestamp, pooling_options),
    {
        if pooling_options.interval == 0 {
            return Err(StoreError::InvalidInterval);
        }
        let len: usize = self.image.len();
        proof {
            self.lemma_count();
            if self.intact() {
                self.lemma_ends();
            }
        }
        let to_offset: u64 = match self.find_to(timestamp) {
            Ok(offset) => offset,
            Err(error) => {
                return match error.kind() {
                    ErrorKind::InvalidInput | ErrorKind::NotFound => Ok(
                        Retrieval::new(Data::Many(Vec::new())),
                    ),
                    _ => Err(error),
                };
            },
        };
        proof {
            lemma_offset_index::<Timestamp, V>(self.image(), to_offset as int);
        }
        let to_item: usize = to_offset as usize / self.item_size + 1;
        let records = self.read_run(0, to_item)?;
        proof {
            assert(self.records().subrange(0, to_item as int) =~= self.records().take(
                to_item as int,
            ));
        }
        let values = gather_buckets::<V>(records.as_slice(), pooling_options, self.first_key)?;
        Ok(Retrieval::new(Data::Many(values)))
    }

    fn pool_range(&self, range: Range<Timestamp>, pooling_options: PoolingOptions) -> (r: Result<
        Retrieval<Timestamp, V>,
        StoreError,
    >)
        ensures
            records_or_failure(r) == self.pool_range_outcome(
                range.start,
                range.end,
                pooling_options,
            ),
    {
        if pooling_options.interval == 0 {
            return Err(StoreError::InvalidInterval);
        }
        let len: usize = self.image.len();
        proof {
            self.lemma_count();
            if self.intact() {
                self.lemma_ends();
            }
        }
        let (from_timestamp, from_offset) = self.find_from(range.start)?;
        let to_offset: u64 = match self.find_to(range.end) {
            Ok(offset) => offset,
            Err(error) => {
                return match error.kind() {
                    ErrorKind::InvalidInput | ErrorKind::NotFound => Ok(
                        Retrieval::new(Data::Many(Vec::new())),
                    ),
                    _ => Err(error),
                };
            },
        };
        proof {
            lemma_offset_index::<Timestamp, V>(self.image(), from_offset as int);
            lemma_offset_index::<Timestamp, V>(self.image(), to_offset as int);
        }
        let from_item: usize = from_offset as usize / self.item_size;
        let to_item: usize = to_offset as usize / self.item_size;
        // No records to return if the scan ends before it starts.
        if to_item < from_item {
            return Ok(Retrieval::new(Data::Many(Vec::new())));
        }
        let records = self.read_run(from_item, to_item + 1)?;
        // Where the scan ends at the record it starts at, that record is all there is: it
        // belongs to the range unless it lies before it, and is then carried into nothing.
        if to_item == from_item && records[0].0 < range.start {
            return Ok(Retrieval::new(Data::Many(Vec::new())));
        }
        let values = gather_buckets::<V>(records.as_slice(), pooling_options, from_timestamp)?;
        Ok(Retrieval::new(Data::Many(values)))
    }
}

} // verus!
