//! A store kept as one flat run of records of a fixed width, in the order of
//! their keys. The bytes the store holds are those of its file.

pub mod key_value_store;
pub mod locate;
pub mod pooled_time_series;
pub mod record;
pub mod search;
pub mod time_series;

use core::marker::PhantomData;
use vstd::prelude::*;
use vstd::arithmetic::div_mod::lemma_fundamental_div_mod;
use crate::error::StoreError;
use crate::key_value_store::Storable;

pub use record::{
    item_width, key_of, key_read, read_key, read_record, record_of, record_read, record_text,
    write_record,
};
pub use search::binary_search_for_key;

verus! {

/// The number of whole records in `image`.
pub open spec fn count_of<K: Storable, V: Storable>(image: Seq<u8>) -> nat {
    image.len() / item_width::<K, V>()
}

/// The bytes of the record of index `i`.
pub open spec fn slot_of<K: Storable, V: Storable>(image: Seq<u8>, i: int) -> Seq<u8> {
    image.subrange(i * item_width::<K, V>(), (i + 1) * item_width::<K, V>())
}

/// An image can be opened if it is a whole number of records, and the keys of
/// its first and its last record can be read.
pub open spec fn can_open<K: Storable, V: Storable>(image: Seq<u8>) -> bool {
    &&& image.len() % item_width::<K, V>() == 0
    &&& image.len() > 0 ==> {
        &&& key_of::<K>(slot_of::<K, V>(image, 0)) is Some
        &&& key_of::<K>(slot_of::<K, V>(image, count_of::<K, V>(image) - 1)) is Some
    }
}

/// Every record of the image can be read, and their keys ascend strictly.
pub open spec fn is_ordered_image<K: Storable, V: Storable>(image: Seq<u8>) -> bool {
    &&& image.len() % item_width::<K, V>() == 0
    &&& forall|i: int|
        0 <= i < count_of::<K, V>(image) ==> (#[trigger] record_of::<K, V>(
            slot_of::<K, V>(image, i),
        )) is Some
    &&& forall|i: int, j: int|
        0 <= i < j < count_of::<K, V>(image) ==> (#[trigger] record_of::<K, V>(
            slot_of::<K, V>(image, i),
        ))->Some_0.0.rank() < (#[trigger] record_of::<K, V>(
            slot_of::<K, V>(image, j),
        ))->Some_0.0.rank()
}

/// The records of the indices from `from` up to, and without, `to` can all
/// be read.
pub open spec fn readable_run<K: Storable, V: Storable>(image: Seq<u8>, from: int, to: int) -> bool {
    forall|i: int|
        from <= i < to ==> (#[trigger] record_of::<K, V>(slot_of::<K, V>(image, i))) is Some
}

/// The records of an image, in the order in which they are stored.
pub open spec fn records_of<K: Storable, V: Storable>(image: Seq<u8>) -> Seq<(K, V)> {
    Seq::new(
        count_of::<K, V>(image),
        |i: int| record_of::<K, V>(slot_of::<K, V>(image, i))->Some_0,
    )
}

/// The image that holds `records` and nothing else, in their order.
pub open spec fn image_of<K: Storable, V: Storable>(records: Seq<(K, V)>) -> Seq<u8>
    decreases records.len(),
{
    if records.len() == 0 {
        Seq::empty()
    } else {
        image_of(records.drop_last()) + record_text(records.last().0, records.last().1)
    }
}

/// The store: the bytes of the file, with the number of records, the first
/// and the last key and the offset of the last record kept at hand.
pub struct FileStorage<K, V> {
    image: Vec<u8>,
    item_size: usize,
    items: usize,
    first_key: K,
    last_key: K,
    end_offset: u64,
    _phantom: PhantomData<V>,
}

impl<K: Storable, V: Storable> FileStorage<K, V> {
    /// The bytes of the file.
    pub closed spec fn image(&self) -> Seq<u8> {
        self.image@
    }

    /// The width of a record, as the store keeps it.
    pub closed spec fn item_size(&self) -> nat {
        self.item_size as nat
    }

    /// The number of records, as the store keeps it.
    pub closed spec fn items(&self) -> nat {
        self.items as nat
    }

    /// The key of the first record, as the store keeps it.
    pub closed spec fn first_key(&self) -> K {
        self.first_key
    }

    /// The key of the last record, as the store keeps it.
    pub closed spec fn last_key(&self) -> K {
        self.last_key
    }

    /// The offset of the last record, as the store keeps it.
    pub closed spec fn end_offset(&self) -> nat {
        self.end_offset as nat
    }

    /// The key of the record of index `i`, read alone.
    pub open spec fn key_at(&self, i: int) -> Option<K> {
        key_of::<K>(slot_of::<K, V>(self.image(), i))
    }

    /// What the store keeps at hand agrees with its bytes.
    pub open spec fn wf(&self) -> bool {
        &&& item_width::<K, V>() <= usize::MAX
        &&& self.item_size() == item_width::<K, V>()
        &&& self.image().len() == self.items() * self.item_size()
        &&& self.items() == 0 ==> self.first_key() == K::initial() && self.last_key()
            == K::initial()
        &&& self.items() > 0 ==> self.key_at(0) == Some(self.first_key()) && self.key_at(
            self.items() - 1,
        ) == Some(self.last_key())
        &&& self.end_offset() == if self.items() > 1 {
            (self.items() - 1) * self.item_size()
        } else {
            0
        }
    }

    /// The store counts as many records as its image holds.
    pub proof fn lemma_count(&self)
        requires
            self.wf(),
        ensures
            self.image().len() % item_width::<K, V>() == 0,
            count_of::<K, V>(self.image()) == self.items(),
            self.image().len() == self.items() * item_width::<K, V>(),
    {
        let n = self.items() as int;
        let w = item_width::<K, V>() as int;
        assert(n * w == w * n) by (nonlinear_arith);
        vstd::arithmetic::div_mod::lemma_div_multiples_vanish(n, w);
        vstd::arithmetic::div_mod::lemma_mod_multiples_basic(n, w);
    }

    /// Opens the store that `image` holds.
    ///
    /// Fails with `InvalidSize` where the image is no whole number of records,
    /// and with `Malformed` where the key of its first or of its last record
    /// cannot be read. The records in between are not looked at.
    pub fn new(image: Vec<u8>) -> (r: Result<Self, StoreError>)
        requires
            item_width::<K, V>() <= usize::MAX,
        ensures
            r is Ok <==> can_open::<K, V>(image@),
            r is Ok ==> r->Ok_0.wf() && r->Ok_0.image() == image@,
            r is Err ==> r->Err_0 == if image@.len() % item_width::<K, V>() != 0 {
                StoreError::InvalidSize
            } else {
                StoreError::Malformed
            },
    {
        let key_size: usize = K::size();
        let item_size: usize = key_size + 1 + V::size() + 1;
        let end: usize = image.len();
        if end % item_size != 0 {
            return Err(StoreError::InvalidSize);
        }
        let items: usize = end / item_size;
        proof {
            lemma_fundamental_div_mod(end as int, item_size as int);
            assert(item_size * items == items * item_size) by (nonlinear_arith);
        }
        if items == 0 {
            assert(end == 0) by (nonlinear_arith)
                requires
                    end == items * item_size,
                    items == 0,
            ;
            return Ok(
                Self {
                    image,
                    item_size,
                    items,
                    first_key: K::default_value(),
                    last_key: K::default_value(),
                    end_offset: 0,
                    _phantom: PhantomData,
                },
            );
        }
        proof {
            assert(items * item_size >= item_size) by (nonlinear_arith)
                requires
                    items >= 1,
            ;
        }
        let last_offset: usize = end - item_size;
        proof {
            assert((items - 1) * item_size == end - item_size) by (nonlinear_arith)
                requires
                    items * item_size == end,
            ;
            assert(slot_of::<K, V>(image@, 0).subrange(0, K::width() as int) =~= image@.subrange(
                0,
                K::width() as int,
            ));
            assert(slot_of::<K, V>(image@, items - 1).subrange(0, K::width() as int)
                =~= image@.subrange(last_offset as int, last_offset + K::width()));
        }
        let first_key = match read_key::<K>(image.as_slice(), 0) {
            Ok(key) => key,
            Err(_) => {
                return Err(StoreError::Malformed);
            },
        };
        let last_key = match read_key::<K>(image.as_slice(), last_offset) {
            Ok(key) => key,
            Err(_) => {
                return Err(StoreError::Malformed);
            },
        };
        Ok(
            Self {
                image,
                item_size,
                items,
                first_key,
                last_key,
                end_offset: last_offset as u64,
                _phantom: PhantomData,
            },
        )
    }

    /// The bytes of the file.
    pub fn bytes(&self) -> (image: &[u8])
        ensures
            image@ == self.image(),
    {
        self.image.as_slice()
    }
}

} // verus!
