//! The layout of one record: the key, a space, the value, a newline.

use vstd::prelude::*;
use vstd::slice::slice_subrange;
use crate::decimal::{NEWLINE, SPACE};
use crate::error::StoreError;
use crate::key_value_store::Storable;

verus! {

broadcast use vstd::slice::group_slice_axioms;

/// The number of bytes of one record.
pub open spec fn item_width<K: Storable, V: Storable>() -> nat {
    K::width() + 1 + V::width() + 1
}

/// The bytes of the record that holds `key` and `value`.
pub open spec fn record_text<K: Storable, V: Storable>(key: K, value: V) -> Seq<u8> {
    key.encoding() + seq![32u8] + value.encoding() + seq![10u8]
}

/// The key that a record starts with, read from its first `K::width()` bytes alone.
pub open spec fn key_of<K: Storable>(record: Seq<u8>) -> Option<K> {
    K::decoding(record.subrange(0, K::width() as int))
}

/// The key and the value that a record holds, if it has the length of a
/// record, both separators in place and two fields that can be read.
pub open spec fn record_of<K: Storable, V: Storable>(record: Seq<u8>) -> Option<(K, V)> {
    let key = K::decoding(record.subrange(0, K::width() as int));
    let value = V::decoding(record.subrange(K::width() + 1 as int, record.len() - 1));
    if record.len() == item_width::<K, V>() && record[K::width() as int] == 32
        && record[record.len() - 1] == 10 && key is Some && value is Some {
        Some((key->Some_0, value->Some_0))
    } else {
        None
    }
}

/// The record written for a key and a value that fit has the width of a
/// record and reads back as the two.
pub proof fn lemma_record_round_trip<K: Storable, V: Storable>(key: K, value: V)
    requires
        key.fits(),
        value.fits(),
    ensures
        record_text(key, value).len() == item_width::<K, V>(),
        record_of::<K, V>(record_text(key, value)) == Some((key, value)),
        key_of::<K>(record_text(key, value)) == Some(key),
{
    key.lemma_round_trip();
    value.lemma_round_trip();
    let text = record_text(key, value);
    assert(text.subrange(0, K::width() as int) =~= key.encoding());
    assert(text.subrange(K::width() + 1 as int, text.len() - 1) =~= value.encoding());
}

/// What `read_key` comes to at `offset`.
pub open spec fn key_read<K: Storable>(image: Seq<u8>, offset: int) -> Result<K, StoreError> {
    if offset + K::width() > image.len() {
        Err(StoreError::UnexpectedEof)
    } else {
        match K::decoding(image.subrange(offset, offset + K::width())) {
            Some(key) => Ok(key),
            None => Err(StoreError::Malformed),
        }
    }
}

/// What `read_record` comes to at `offset`.
pub open spec fn record_read<K: Storable, V: Storable>(image: Seq<u8>, offset: int) -> Result<
    (K, V),
    StoreError,
> {
    if offset + item_width::<K, V>() > image.len() {
        Err(StoreError::UnexpectedEof)
    } else {
        match record_of::<K, V>(image.subrange(offset, offset + item_width::<K, V>())) {
            Some(record) => Ok(record),
            None => Err(StoreError::Malformed),
        }
    }
}

/// Reads the key of the record that starts at `offset`: `UnexpectedEof` where
/// the image ends before the key does, `Malformed` where the bytes are no key.
pub fn read_key<K: Storable>(image: &[u8], offset: usize) -> (r: Result<K, StoreError>)
    ensures
        r == key_read::<K>(image@, offset as int),
{
    let key_size: usize = K::size();
    let len: usize = image.len();
    if offset > len || len - offset < key_size {
        return Err(StoreError::UnexpectedEof);
    }
    K::from_bytes(slice_subrange(image, offset, offset + key_size))
}

/// Reads the record that starts at `offset`: `UnexpectedEof` where the image
/// ends before the record does, `Malformed` where the bytes are no record.
pub fn read_record<K: Storable, V: Storable>(image: &[u8], offset: usize) -> (r: Result<
    (K, V),
    StoreError,
>)
    requires
        item_width::<K, V>() <= usize::MAX,
    ensures
        r == record_read::<K, V>(image@, offset as int),
{
    let key_size: usize = K::size();
    let value_size: usize = V::size();
    let len: usize = image.len();
    if offset > len || len - offset < key_size + 1 + value_size + 1 {
        return Err(StoreError::UnexpectedEof);
    }
    let value_start: usize = offset + key_size + 1;
    let value_end: usize = value_start + value_size;
    let ghost record = image@.subrange(offset as int, offset + item_width::<K, V>());
    assert(record.subrange(0, K::width() as int) =~= image@.subrange(
        offset as int,
        offset + key_size,
    ));
    assert(record.subrange(K::width() + 1 as int, record.len() - 1) =~= image@.subrange(
        value_start as int,
        value_end as int,
    ));
    assert(record[K::width() as int] == image@[offset + key_size]);
    assert(record[record.len() - 1] == image@[value_end as int]);
    if image[offset + key_size] != SPACE || image[value_end] != NEWLINE {
        return Err(StoreError::Malformed);
    }
    let key = match K::from_bytes(slice_subrange(image, offset, offset + key_size)) {
        Ok(key) => key,
        Err(_) => {
            return Err(StoreError::Malformed);
        },
    };
    match V::from_bytes(slice_subrange(image, value_start, value_end)) {
        Ok(value) => Ok((key, value)),
        Err(_) => Err(StoreError::Malformed),
    }
}

/// Appends the record that holds `key` and `value` to `image`, or leaves
/// `image` as it is where one of the two does not fit its field.
pub fn write_record<K: Storable, V: Storable>(image: &mut Vec<u8>, key: K, value: V) -> (r: Result<
    (),
    StoreError,
>)
    ensures
        r is Ok <==> key.fits() && value.fits(),
        r is Ok ==> final(image)@ == old(image)@ + record_text(key, value),
        r is Err ==> r->Err_0 == StoreError::OutOfRange && final(image)@ == old(image)@,
{
    let mut key_text = match key.into_bytes() {
        Ok(text) => text,
        Err(_) => {
            return Err(StoreError::OutOfRange);
        },
    };
    let mut value_text = match value.into_bytes() {
        Ok(text) => text,
        Err(_) => {
            return Err(StoreError::OutOfRange);
        },
    };
    image.append(&mut key_text);
    image.push(SPACE);
    image.append(&mut value_text);
    image.push(NEWLINE);
    assert(image@ =~= old(image)@ + record_text(key, value));
    Ok(())
}

} // verus!
