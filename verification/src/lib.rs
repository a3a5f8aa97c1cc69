//! An append-only store of fixed-width text records, ordered by key, with
//! nearest-key lookup, half-open range scans and bucketed pooling.
//!
//! A store holds the bytes of its file: it is opened on them, and every
//! record that it accepts is added at their end. Whoever keeps the file reads
//! its bytes before the store is opened and writes what `store` has added.
//!
//! Every record is the text of its key, a space, the text of its value and a
//! newline, each text in a field of constant width (`Storable`). The records
//! of a store that was filled by `store` alone can all be read, and their keys
//! ascend strictly; such a store is called intact. Of an intact store the
//! retrievals are stated by the records they return: the nearest record, the
//! records of a window, the value of each bucket. Of any store they are
//! stated by the reads they make, so that a record that cannot be read is
//! reported where it is met. Opening a store looks at its first and its last
//! key only; `FileStorage::is_intact` reads all of it.

pub mod bucket_contents;
pub mod buckets;
pub mod decimal;
pub mod error;
pub mod key_value_store;
pub mod nearest;
pub mod pooled_time_series;
pub mod storage;
pub mod time_series;
pub mod value;

pub use error::{ErrorKind, StoreError};
pub use key_value_store::{Data, KeyValueStore, Retrieval, Storable};
pub use storage::FileStorage;
pub use pooled_time_series::{
    GapFillMethod, Interval, Poolable, PooledTimeSeries, PoolingMethod, PoolingOptions,
};
pub use time_series::{RetrievalDirection, TimeSeries, Timestamp};
