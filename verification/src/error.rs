//! The failures a store can report.

use vstd::prelude::*;

verus! {

/// The broad category of a failure.
#[derive(Clone, Copy, Debug, PartialEq, Eq, Structural)]
pub enum ErrorKind {
    /// The stored bytes are not what the record format demands.
    InvalidData,
    /// The caller passed something the store cannot accept.
    InvalidInput,
    /// No record satisfies the request.
    NotFound,
    /// The stored bytes end before the record that was to be read.
    UnexpectedEof,
}

/// A failure of a store operation.
#[derive(Clone, Copy, Debug, PartialEq, Eq, Structural)]
pub enum StoreError {
    /// The image's length is not a whole number of records.
    InvalidSize,
    /// A record, key or value field could not be decoded.
    Malformed,
    /// The key to append does not come after the last stored key.
    KeyNotAfterLast,
    /// The key or value does not fit its fixed-width field.
    OutOfRange,
    /// A bound of an exclusive scan equals the first stored key.
    BoundAtFirstRecord,
    /// Buckets were asked for with a width of zero.
    InvalidInterval,
    /// The search range holds a single offset.
    EmptyRange,
    /// The search key precedes every key of the search range.
    BeforeRange,
    /// The search key follows every key of the search range.
    AfterRange,
    /// The search key falls between two stored keys and no direction was given.
    KeyNotFound,
    /// A read went beyond the last stored byte.
    UnexpectedEof,
}

impl StoreError {
    /// The category each failure belongs to.
    pub open spec fn spec_kind(self) -> ErrorKind {
        match self {
            StoreError::InvalidSize | StoreError::Malformed => ErrorKind::InvalidData,
            StoreError::KeyNotAfterLast
            | StoreError::OutOfRange
            | StoreError::BoundAtFirstRecord
            | StoreError::InvalidInterval => ErrorKind::InvalidInput,
            StoreError::EmptyRange
            | StoreError::BeforeRange
            | StoreError::AfterRange
            | StoreError::KeyNotFound => ErrorKind::NotFound,
            StoreError::UnexpectedEof => ErrorKind::UnexpectedEof,
        }
    }

    #[verifier::when_used_as_spec(spec_kind)]
    pub fn kind(self) -> (k: ErrorKind)
        ensures
            k == self.spec_kind(),
    {
        match self {
            StoreError::InvalidSize | StoreError::Malformed => ErrorKind::InvalidData,
            StoreError::KeyNotAfterLast
            | StoreError::OutOfRange
            | StoreError::BoundAtFirstRecord
            | StoreError::InvalidInterval => ErrorKind::InvalidInput,
            StoreError::EmptyRange
            | StoreError::BeforeRange
            | StoreError::AfterRange
            | StoreError::KeyNotFound => ErrorKind::NotFound,
            StoreError::UnexpectedEof => ErrorKind::UnexpectedEof,
        }
    }

    /// The sentence that describes each failure.
    pub open spec fn spec_message(self) -> Seq<char> {
        match self {
            StoreError::InvalidSize => "FileStorage file is an invalid size"@,
            StoreError::Malformed => "Invalid data"@,
            StoreError::KeyNotAfterLast => "Passed key was equal to or before the last recorded key"@,
            StoreError::OutOfRange => "Passed key or value does not fit its field"@,
            StoreError::BoundAtFirstRecord => "find_to search key was equal to the first record"@,
            StoreError::InvalidInterval => "Pooling interval was zero"@,
            StoreError::EmptyRange => "No items in search range"@,
            StoreError::BeforeRange => "Search key is before the search range"@,
            StoreError::AfterRange => "Search key is after the search range"@,
            StoreError::KeyNotFound => "Search key was not found"@,
            StoreError::UnexpectedEof => "failed to fill whole buffer"@,
        }
    }

    /// A sentence describing the failure.
    pub fn message(self) -> (text: &'static str)
        ensures
            text@ == self.spec_message(),
    {
        match self {
            StoreError::InvalidSize => "FileStorage file is an invalid size",
            StoreError::Malformed => "Invalid data",
            StoreError::KeyNotAfterLast => "Passed key was equal to or before the last recorded key",
            StoreError::OutOfRange => "Passed key or value does not fit its field",
            StoreError::BoundAtFirstRecord => "find_to search key was equal to the first record",
            StoreError::InvalidInterval => "Pooling interval was zero",
            StoreError::EmptyRange => "No items in search range",
            StoreError::BeforeRange => "Search key is before the search range",
            StoreError::AfterRange => "Search key is after the search range",
            StoreError::KeyNotFound => "Search key was not found",
            StoreError::UnexpectedEof => "failed to fill whole buffer",
        }
    }
}

} // verus!
