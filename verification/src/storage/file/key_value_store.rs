//! The file store as a store of records in key order: its length, and how a
//! record is added.

use vstd::prelude::*;
use crate::error::StoreError;
use crate::key_value_store::{KeyValueStore, Storable};
use crate::storage::file::record::{
    item_width, lemma_record_round_trip, record_of, record_text, write_record,
};
use crate::nearest::{ascending, key_ranks};
use crate::storage::file::search::{lemma_ordered_keys, lemma_slot};
use crate::storage::file::{
    can_open, count_of, image_of, is_ordered_image, records_of, slot_of, FileStorage,
};

verus! {

/// An image with one record more is a whole number of records, one more
/// than before.
pub proof fn lemma_append_record<K: Storable, V: Storable>(image: Seq<u8>, key: K, value: V)
    requires
        image.len() % item_width::<K, V>() == 0,
        key.fits(),
        value.fits(),
    ensures
        (image + record_text(key, value)).len() % item_width::<K, V>() == 0,
        (image + record_text(key, value)).len() == image.len() + item_width::<K, V>(),
        count_of::<K, V>(image + record_text(key, value)) == count_of::<K, V>(image) + 1,
        image.len() == count_of::<K, V>(image) * item_width::<K, V>(),
{
    let w = item_width::<K, V>() as int;
    let n = count_of::<K, V>(image) as int;
    let after = image + record_text(key, value);
    lemma_record_round_trip(key, value);
    vstd::arithmetic::div_mod::lemma_fundamental_div_mod(image.len() as int, w);
    assert(image.len() == n * w) by (nonlinear_arith)
        requires
            image.len() == w * n,
    ;
    assert(after.len() == (n + 1) * w) by (nonlinear_arith)
        requires
            after.len() == n * w + w,
    ;
    assert((n + 1) * w == w * (n + 1)) by (nonlinear_arith);
    vstd::arithmetic::div_mod::lemma_div_multiples_vanish(n + 1, w);
    vstd::arithmetic::div_mod::lemma_mod_multiples_basic(n + 1, w);
}

/// In an image with one record more, the records before it stay where they
/// were, and the new one is the last.
pub proof fn lemma_appended_slot<K: Storable, V: Storable>(
    image: Seq<u8>,
    key: K,
    value: V,
    i: int,
)
    requires
        image.len() % item_width::<K, V>() == 0,
        key.fits(),
        value.fits(),
        0 <= i <= count_of::<K, V>(image),
    ensures
        slot_of::<K, V>(image + record_text(key, value), i) == if i < count_of::<K, V>(image) {
            slot_of::<K, V>(image, i)
        } else {
            record_text(key, value)
        },
        record_of::<K, V>(slot_of::<K, V>(image + record_text(key, value), i)) == if i
            < count_of::<K, V>(image) {
            record_of::<K, V>(slot_of::<K, V>(image, i))
        } else {
            Some((key, value))
        },
{
    let after = image + record_text(key, value);
    lemma_append_record(image, key, value);
    lemma_record_round_trip(key, value);
    lemma_slot::<K, V>(after, i);
    if i < count_of::<K, V>(image) {
        lemma_slot::<K, V>(image, i);
        assert(slot_of::<K, V>(after, i) =~= slot_of::<K, V>(image, i));
    } else {
        assert(slot_of::<K, V>(after, i) =~= record_text(key, value));
    }
}

/// An ordered image stays ordered when a record is added whose key comes
/// after the last, and its records are those before and the new one.
pub proof fn lemma_append_keeps_order<K: Storable, V: Storable>(image: Seq<u8>, key: K, value: V)
    requires
        is_ordered_image::<K, V>(image),
        key.fits(),
        value.fits(),
        count_of::<K, V>(image) > 0 ==> key_ranks(records_of::<K, V>(image)).last() < key.rank(),
    ensures
        is_ordered_image::<K, V>(image + record_text(key, value)),
        records_of::<K, V>(image + record_text(key, value)) == records_of::<K, V>(image).push(
            (key, value),
        ),
{
    let n = count_of::<K, V>(image) as int;
    let after = image + record_text(key, value);
    let before = records_of::<K, V>(image);
    let keys = key_ranks(before);
    lemma_append_record(image, key, value);
    lemma_ordered_keys::<K, V>(image);
    assert forall|i: int| 0 <= i < n + 1 implies (#[trigger] record_of::<K, V>(
        slot_of::<K, V>(after, i),
    )) == Some(before.push((key, value))[i]) by {
        lemma_appended_slot(image, key, value, i);
    }
    assert forall|i: int, j: int| 0 <= i < j < n + 1 implies (#[trigger] record_of::<K, V>(
        slot_of::<K, V>(after, i),
    ))->Some_0.0.rank() < (#[trigger] record_of::<K, V>(
        slot_of::<K, V>(after, j),
    ))->Some_0.0.rank() by {
        assert(keys[i] == before[i].0.rank());
        if j < n {
            assert(keys[j] == before[j].0.rank());
        } else {
            assert(keys[n - 1] == keys.last());
            assert(i == n - 1 || keys[i] < keys[n - 1]);
        }
    }
    assert(records_of::<K, V>(after) =~= before.push((key, value)));
}

/// What holds of records that were added one after the other by `store`, each
/// with success: all fit their fields, and each key comes after the one
/// before it.
pub open spec fn appended<K: Storable, V: Storable>(records: Seq<(K, V)>) -> bool {
    forall|i: int|
        0 <= i < records.len() ==> {
            &&& (#[trigger] records[i]).0.fits()
            &&& records[i].1.fits()
            &&& i > 0 ==> records[i - 1].0.rank() < records[i].0.rank()
        }
}

/// The image of records with one more is the image of the records with the
/// text of the new one at its end: what `store` makes of the image.
pub proof fn lemma_image_of_push<K: Storable, V: Storable>(records: Seq<(K, V)>, key: K, value: V)
    ensures
        image_of(records.push((key, value))) == image_of(records) + record_text(key, value),
{
    assert(records.push((key, value)).drop_last() =~= records);
}

/// Records that were added one after the other have keys that ascend
/// strictly, and make an image of as many record widths as there are records,
/// which is ordered, holds these records and can be opened.
pub proof fn lemma_appended_image<K: Storable, V: Storable>(records: Seq<(K, V)>)
    requires
        appended(records),
    ensures
        ascending(key_ranks(records)),
        image_of(records).len() == records.len() * item_width::<K, V>(),
        count_of::<K, V>(image_of(records)) == records.len(),
        is_ordered_image::<K, V>(image_of(records)),
        records_of::<K, V>(image_of(records)) == records,
        can_open::<K, V>(image_of(records)),
    decreases records.len(),
{
    let w = item_width::<K, V>() as int;
    let image = image_of(records);
    if records.len() == 0 {
        assert(0int % w == 0 && 0int / w == 0);
        assert(records_of::<K, V>(image) =~= records);
    } else {
        let front = records.drop_last();
        let last = records.last();
        assert(appended(front)) by {
            assert forall|i: int| 0 <= i < front.len() implies {
                &&& (#[trigger] front[i]).0.fits()
                &&& front[i].1.fits()
                &&& i > 0 ==> front[i - 1].0.rank() < front[i].0.rank()
            } by {
                assert(front[i] == records[i]);
                if i > 0 {
                    assert(front[i - 1] == records[i - 1]);
                }
            }
        }
        lemma_appended_image(front);
        let keys = key_ranks(records);
        let front_keys = key_ranks(front);
        assert(records[records.len() - 1] == last);
        if front.len() > 0 {
            assert(front_keys.last() == records[records.len() - 2].0.rank());
        }
        lemma_append_record(image_of(front), last.0, last.1);
        lemma_append_keeps_order(image_of(front), last.0, last.1);
        assert(front.push(last) =~= records);
        assert(image.len() == records.len() * w) by (nonlinear_arith)
            requires
                image.len() == front.len() * w + w,
                records.len() == front.len() + 1,
        ;
        lemma_ordered_keys::<K, V>(image);
        lemma_slot::<K, V>(image, 0);
        lemma_slot::<K, V>(image, records.len() - 1);
        assert(record_of::<K, V>(slot_of::<K, V>(image, 0)) is Some);
        assert(record_of::<K, V>(slot_of::<K, V>(image, records.len() - 1)) is Some);
    }
}

/// A store that was opened on the image of records added one after the other
/// counts these records, keeps the first and the last of their keys, and is
/// intact.
pub proof fn lemma_reopened<K: Storable, V: Storable>(
    records: Seq<(K, V)>,
    reopened: FileStorage<K, V>,
)
    requires
        appended(records),
        reopened.wf(),
        reopened.image() == image_of(records),
    ensures
        reopened.count() == records.len(),
        reopened.image().len() == records.len() * item_width::<K, V>(),
        reopened.intact(),
        reopened.records() == records,
        records.len() > 0 ==> reopened.first_key() == records[0].0 && reopened.latest()
            == records.last().0,
        records.len() == 0 ==> reopened.first_key() == K::initial() && reopened.latest()
            == K::initial(),
{
    lemma_appended_image(records);
    reopened.lemma_count();
    if records.len() > 0 {
        lemma_ordered_keys::<K, V>(reopened.image());
        lemma_slot::<K, V>(reopened.image(), 0);
        lemma_slot::<K, V>(reopened.image(), records.len() - 1);
        assert(record_of::<K, V>(slot_of::<K, V>(reopened.image(), 0)) is Some);
        assert(record_of::<K, V>(slot_of::<K, V>(reopened.image(), records.len() - 1)) is Some);
    }
}

/// Where `store` succeeds on a store that holds records added one after the
/// other, the records with the new one are again such records, and their
/// image is what the store then holds.
pub proof fn lemma_store_appends<K: Storable, V: Storable>(
    records: Seq<(K, V)>,
    before: FileStorage<K, V>,
    key: K,
    value: V,
)
    requires
        appended(records),
        before.wf(),
        before.image() == image_of(records),
        before.count() == 0 || before.latest().rank() < key.rank(),
        key.fits(),
        value.fits(),
    ensures
        appended(records.push((key, value))),
        image_of(records.push((key, value))) == before.image() + record_text(key, value),
{
    lemma_reopened(records, before);
    lemma_image_of_push(records, key, value);
    let longer = records.push((key, value));
    assert forall|i: int| 0 <= i < longer.len() implies {
        &&& (#[trigger] longer[i]).0.fits()
        &&& longer[i].1.fits()
        &&& i > 0 ==> longer[i - 1].0.rank() < longer[i].0.rank()
    } by {
        if i < records.len() {
            assert(longer[i] == records[i]);
            if i > 0 {
                assert(longer[i - 1] == records[i - 1]);
            }
        } else if i > 0 {
            assert(longer[i - 1] == records[i - 1]);
        }
    }
}

impl<K: Storable, V: Storable> KeyValueStore<K, V> for FileStorage<K, V> {
    open spec fn valid(&self) -> bool {
        self.wf()
    }

    open spec fn intact(&self) -> bool {
        is_ordered_image::<K, V>(self.image())
    }

    open spec fn count(&self) -> nat {
        self.items()
    }

    open spec fn latest(&self) -> K {
        self.last_key()
    }

    open spec fn records(&self) -> Seq<(K, V)> {
        records_of::<K, V>(self.image())
    }

    fn len(&self) -> (n: usize) {
        self.items
    }

    fn store(&mut self, key: K, value: V) -> (r: Result<(), StoreError>)
        ensures
            r is Ok ==> final(self).image() == old(self).image() + record_text(key, value),
            r is Err ==> final(self).image() == old(self).image(),
    {
        if self.items > 0 && !self.last_key.precedes(key) {
            return Err(StoreError::KeyNotAfterLast);
        }
        let ghost before = self.image@;
        proof {
            self.lemma_count();
        }
        match write_record(&mut self.image, key, value) {
            Ok(()) => {},
            Err(e) => {
                return Err(e);
            },
        }
        let end: usize = self.image.len();
        proof {
            lemma_append_record(before, key, value);
            lemma_appended_slot(before, key, value, 0);
            lemma_appended_slot(before, key, value, self.items as int);
            lemma_record_round_trip(key, value);
            assert(end == (self.items + 1) * self.item_size) by (nonlinear_arith)
                requires
                    end == self.items * self.item_size + self.item_size,
            ;
            assert(self.items + 1 <= end) by (nonlinear_arith)
                requires
                    end == (self.items + 1) * self.item_size,
                    self.item_size >= 1,
            ;
            if self.items > 0 {
                assert(self.items * self.item_size == (self.items - 1) * self.item_size
                    + self.item_size) by (nonlinear_arith);
            }
            if is_ordered_image::<K, V>(before) {
                if self.items > 0 {
                    lemma_slot::<K, V>(before, self.items - 1);
                    assert(record_of::<K, V>(slot_of::<K, V>(before, self.items - 1)) is Some);
                }
                lemma_append_keeps_order(before, key, value);
            }
        }
        if self.items == 0 {
            self.first_key = key;
        } else {
            self.end_offset = (end - self.item_size) as u64;
        }
        self.items = self.items + 1;
        self.last_key = key;
        Ok(())
    }
}

} // verus!
