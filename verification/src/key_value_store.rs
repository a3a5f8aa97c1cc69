//! The codec that keys and values share, and the interface of a store of
//! records in key order.

use vstd::prelude::*;
use crate::error::{ErrorKind, StoreError};

verus! {

/// What a retrieval carries: one record, or several in the order of their keys.
pub enum Data<K, V> {
    Single((K, V)),
    Many(Vec<(K, V)>),
}

/// The result of a retrieval.
pub struct Retrieval<K, V> {
    pub data: Data<K, V>,
}

impl<K, V> Retrieval<K, V> {
    /// The record that the retrieval carries, if it carries a single one.
    pub open spec fn single(&self) -> Option<(K, V)> {
        match self.data {
            Data::Single(record) => Some(record),
            Data::Many(_) => None,
        }
    }

    /// The records that the retrieval carries, if it carries a sequence.
    pub open spec fn many(&self) -> Option<Seq<(K, V)>> {
        match self.data {
            Data::Single(_) => None,
            Data::Many(records) => Some(records@),
        }
    }

    pub fn new(data: Data<K, V>) -> (retrieval: Self)
        ensures
            retrieval.data == data,
    {
        Self { data }
    }

    /// The single record, or `None` for a retrieval of several.
    pub fn as_single(&self) -> (record: Option<&(K, V)>)
        ensures
            match record {
                Some(record) => self.single() == Some(*record),
                None => self.single() is None,
            },
    {
        match &self.data {
            Data::Single(record) => Some(record),
            Data::Many(_) => None,
        }
    }

    /// The records, or `None` for a retrieval of a single one.
    pub fn as_vec(&self) -> (records: Option<&Vec<(K, V)>>)
        ensures
            match records {
                Some(records) => self.many() == Some(records@),
                None => self.many() is None,
            },
    {
        match &self.data {
            Data::Single(_) => None,
            Data::Many(records) => Some(records),
        }
    }

    /// The single record of a retrieval that carries one.
    pub fn into_single(self) -> (record: (K, V))
        requires
            self.single() is Some,
        ensures
            self.single() == Some(record),
    {
        match self.data {
            Data::Single(record) => record,
            Data::Many(_) => vstd::pervasive::unreached(),
        }
    }

    /// The records of a retrieval that carries several.
    pub fn into_vec(self) -> (records: Vec<(K, V)>)
        requires
            self.many() is Some,
        ensures
            self.many() == Some(records@),
    {
        match self.data {
            Data::Single(_) => vstd::pervasive::unreached(),
            Data::Many(records) => records,
        }
    }
}

/// What a retrieval of several records came to: the records, or the failure.
pub open spec fn records_or_failure<K, V>(r: Result<Retrieval<K, V>, StoreError>) -> Result<
    Seq<(K, V)>,
    StoreError,
> {
    match r {
        Ok(retrieval) => Ok(retrieval.many()->Some_0),
        Err(e) => Err(e),
    }
}

/// What a reading or a pooling of records came to: the records, or the failure.
pub open spec fn read_or_failure<K, V>(r: Result<Vec<(K, V)>, StoreError>) -> Result<
    Seq<(K, V)>,
    StoreError,
> {
    match r {
        Ok(records) => Ok(records@),
        Err(e) => Err(e),
    }
}

/// A store of records in the strict order of their keys, to which records are
/// added at the end.
pub trait KeyValueStore<K: Storable, V: Storable> {
    /// What the store keeps at hand agrees with what it holds.
    spec fn valid(&self) -> bool;

    /// Every record that the store holds can be read, and their keys ascend
    /// strictly.
    spec fn intact(&self) -> bool;

    /// The number of records.
    spec fn count(&self) -> nat;

    /// The key of the last record; `K::initial()` in a store without records.
    spec fn latest(&self) -> K;

    /// The records of an intact store, in their order.
    spec fn records(&self) -> Seq<(K, V)>;

    fn len(&self) -> (n: usize)
        requires
            self.valid(),
        ensures
            n == self.count(),
    ;

    /// Adds the record of `key` and `value` at the end.
    ///
    /// A key that does not come after the last one is refused with
    /// `KeyNotAfterLast`, the last key itself too. A key or a value that does
    /// not fit its field is refused with `OutOfRange`. A store that refuses
    /// is left as it was.
    fn store(&mut self, key: K, value: V) -> (r: Result<(), StoreError>)
        requires
            old(self).valid(),
        ensures
            final(self).valid(),
            r is Ok <==> {
                &&& old(self).count() == 0 || old(self).latest().rank() < key.rank()
                &&& key.fits()
                &&& value.fits()
            },
            old(self).count() > 0 && key.rank() <= old(self).latest().rank() ==> r is Err
                && r->Err_0.spec_kind() == ErrorKind::InvalidInput,
            r is Ok ==> final(self).count() == old(self).count() + 1 && final(self).latest()
                == key,
            r is Err ==> {
                &&& final(self).count() == old(self).count()
                &&& final(self).latest() == old(self).latest()
                &&& r->Err_0 == if old(self).count() > 0 && key.rank() <= old(
                    self,
                ).latest().rank() {
                    StoreError::KeyNotAfterLast
                } else {
                    StoreError::OutOfRange
                }
            },
            old(self).intact() ==> {
                &&& final(self).intact()
                &&& final(self).records() == if r is Ok {
                    old(self).records().push((key, value))
                } else {
                    old(self).records()
                }
            },
    ;
}

/// A type with a textual form of constant width, by which it is stored.
///
/// `rank` places the values in their natural order; all the comparisons that
/// a store makes go through it.
pub trait Storable: Copy + Sized {
    /// The number of bytes that every stored value takes.
    spec fn width() -> nat;

    /// The place of the value in the natural order of the type.
    spec fn rank(self) -> int;

    /// The value can be written in `width()` bytes.
    spec fn fits(self) -> bool;

    /// The textual form of a value that fits.
    spec fn encoding(self) -> Seq<u8>;

    /// The value that `text` stands for, if it stands for one.
    spec fn decoding(text: Seq<u8>) -> Option<Self>;

    /// The value that stands in for a missing one.
    spec fn initial() -> Self;

    fn size() -> (n: usize)
        ensures
            n == Self::width(),
    ;

    /// The textual form of the value, or `OutOfRange` for a value that does
    /// not fit the width.
    fn into_bytes(self) -> (r: Result<Vec<u8>, StoreError>)
        ensures
            self.fits() ==> r is Ok && r->Ok_0@ == self.encoding(),
            !self.fits() ==> r is Err && r->Err_0 == StoreError::OutOfRange,
    ;

    /// The value that `buffer` stands for, or `Malformed`.
    fn from_bytes(buffer: &[u8]) -> (r: Result<Self, StoreError>)
        ensures
            r == match Self::decoding(buffer@) {
                Some(value) => Ok::<Self, StoreError>(value),
                None => Err(StoreError::Malformed),
            },
    ;

    fn default_value() -> (value: Self)
        ensures
            value == Self::initial(),
    ;

    /// Whether `self` comes strictly before `other`.
    fn precedes(self, other: Self) -> (b: bool)
        ensures
            b == (self.rank() < other.rank()),
    ;

    /// Two values of one rank are one value.
    proof fn lemma_rank_decides(a: Self, b: Self)
        ensures
            a.rank() == b.rank() ==> a == b,
    ;

    /// A value that fits is written in exactly `width()` bytes, and reading
    /// them gives the value back.
    proof fn lemma_round_trip(self)
        requires
            self.fits(),
        ensures
            self.encoding().len() == Self::width(),
            Self::decoding(self.encoding()) == Some(self),
    ;
}

} // verus!
