use trade_data::{
    FileStorage, KeyValueStore, PooledTimeSeries, PoolingMethod, PoolingOptions,
    RetrievalDirection, StoreError, TimeSeries, Timestamp,
};

fn filled(records: &[(Timestamp, i32)]) -> FileStorage<Timestamp, i32> {
    let mut fs = FileStorage::<Timestamp, i32>::new(Vec::new()).unwrap();
    for record in records {
        fs.store(record.0, record.1).unwrap();
    }
    fs
}

fn sample() -> Vec<(Timestamp, i32)> {
    vec![(3, 30), (4, 40), (9, 90), (10, 100), (11, 110), (17, 170), (25, 250), (26, 260), (40, 400)]
}

#[test]
fn appends_grow_the_image_by_one_record_each() {
    let records = sample();
    let mut fs = FileStorage::<Timestamp, i32>::new(Vec::new()).unwrap();
    assert_eq!(fs.len(), 0);
    for (n, record) in records.iter().enumerate() {
        fs.store(record.0, record.1).unwrap();
        assert_eq!(fs.len(), n + 1);
        assert_eq!(fs.bytes().len(), (n + 1) * 19);
        assert!(fs.is_intact());
    }
}

#[test]
fn reopening_recovers_the_records() {
    let records = sample();
    for n in 0..=records.len() {
        let image = filled(&records[..n]).bytes().to_vec();
        let mut fs = FileStorage::<Timestamp, i32>::new(image).unwrap();
        assert_eq!(fs.len(), n);
        assert!(fs.is_intact());
        assert_eq!(fs.retrieve_all().unwrap().into_vec(), records[..n].to_vec());
        if n > 0 {
            // The first and the last key are at hand again.
            assert_eq!(fs.find_from(0), Ok((records[0].0, 0)));
            assert_eq!(fs.store(records[n - 1].0, 1), Err(StoreError::KeyNotAfterLast));
            assert_eq!(fs.store(records[n - 1].0 + 1, 1), Ok(()));
        }
    }
}

#[test]
fn monotonic_append() {
    let mut fs = FileStorage::<Timestamp, i32>::new(Vec::new()).unwrap();
    assert_eq!(fs.store(2, 1), Ok(()));
    assert_eq!(fs.store(1, 2).map_err(|e| e.kind()), Err(trade_data::ErrorKind::InvalidInput));
    assert_eq!(fs.store(2, 2).map_err(|e| e.kind()), Err(trade_data::ErrorKind::InvalidInput));
    assert_eq!(fs.bytes(), b"0000000000002    1\n");
}

#[test]
fn persisted_last_key_on_reopen() {
    let image = filled(&[(1, 1), (2, 2)]).bytes().to_vec();
    let mut fs = FileStorage::<Timestamp, i32>::new(image).unwrap();
    assert_eq!(fs.store(2, 3).map_err(|e| e.kind()), Err(trade_data::ErrorKind::InvalidInput));
}

#[test]
fn every_key_at_or_before_the_last_is_refused() {
    let records = sample();
    let last = records[records.len() - 1].0;
    for key in 0..=last {
        let mut fs = filled(&records);
        assert_eq!(fs.store(key, 1), Err(StoreError::KeyNotAfterLast));
    }
}

#[test]
fn every_stored_key_is_found_in_every_direction() {
    let records = sample();
    for n in 2..=records.len() {
        let fs = filled(&records[..n]);
        for record in &records[..n] {
            for direction in [None, Some(RetrievalDirection::Forward), Some(RetrievalDirection::Backward)] {
                let found = fs.retrieve_nearest(record.0, direction).unwrap();
                assert_eq!(found.as_single(), Some(record));
            }
        }
    }
}

#[test]
fn nearest_direction() {
    let fs = filled(&[(10, 1), (15, 1), (20, 2), (30, 3)]);
    assert_eq!(fs.retrieve_nearest(22, Some(RetrievalDirection::Forward)).unwrap().into_single(), (30, 3));
    assert_eq!(fs.retrieve_nearest(17, Some(RetrievalDirection::Backward)).unwrap().into_single(), (15, 1));
    assert_eq!(fs.retrieve_nearest(15, None).unwrap().into_single(), (15, 1));
}

#[test]
fn nearest_agrees_with_a_plain_scan() {
    let records = sample();
    let fs = filled(&records);
    for key in 0..45u64 {
        let exact = records.iter().find(|r| r.0 == key);
        let next = records.iter().find(|r| r.0 > key);
        let previous = records.iter().rev().find(|r| r.0 < key);
        let forward = fs.retrieve_nearest(key, Some(RetrievalDirection::Forward)).ok().map(|r| r.into_single());
        let backward = fs.retrieve_nearest(key, Some(RetrievalDirection::Backward)).ok().map(|r| r.into_single());
        let none = fs.retrieve_nearest(key, None).ok().map(|r| r.into_single());
        assert_eq!(forward, exact.or(next).copied());
        assert_eq!(backward, exact.or(previous).copied());
        assert_eq!(none, exact.copied());
    }
}

#[test]
fn ranges_hold_exactly_the_records_of_their_window() {
    let records = sample();
    for n in 2..=records.len() {
        let fs = filled(&records[..n]);
        for from in 0..45u64 {
            for to in 0..45u64 {
                let expected: Vec<(Timestamp, i32)> =
                    records[..n].iter().filter(|r| from <= r.0 && r.0 < to).copied().collect();
                assert_eq!(fs.retrieve_range(from..to).unwrap().into_vec(), expected);
            }
            let expected: Vec<(Timestamp, i32)> = records[..n].iter().filter(|r| from <= r.0).copied().collect();
            assert_eq!(fs.retrieve_from(from).unwrap().into_vec(), expected);
            let expected: Vec<(Timestamp, i32)> = records[..n].iter().filter(|r| r.0 < from).copied().collect();
            assert_eq!(fs.retrieve_to(from).unwrap().into_vec(), expected);
        }
    }
}

#[test]
fn half_open_range() {
    let fs = filled(&[(10, 1), (20, 2), (30, 3), (40, 4)]);
    assert_eq!(fs.retrieve_range(10..30).unwrap().into_vec(), vec![(10, 1), (20, 2)]);
    assert_eq!(fs.retrieve_range(30..30).unwrap().into_vec(), vec![]);
    assert_eq!(fs.retrieve_range(7..43).unwrap().into_vec(), vec![(10, 1), (20, 2), (30, 3), (40, 4)]);
    assert_eq!(fs.retrieve_range(35..25).unwrap().into_vec(), vec![]);
    assert_eq!(fs.retrieve_range(40..10).unwrap().into_vec(), vec![]);
}

#[test]
fn stores_of_fewer_than_two_records_cannot_be_searched() {
    let one = filled(&[(10, 1)]);
    assert_eq!(one.retrieve_range(5..50).err(), Some(StoreError::EmptyRange));
    assert_eq!(one.retrieve_range(10..50).err(), Some(StoreError::EmptyRange));
    assert_eq!(one.retrieve_range(11..50).unwrap().into_vec(), vec![]);
    assert_eq!(one.retrieve_from(10).err(), Some(StoreError::EmptyRange));
    assert_eq!(one.retrieve_from(11).unwrap().into_vec(), vec![]);
    assert_eq!(one.retrieve_to(50).unwrap().into_vec(), vec![]);
    assert_eq!(one.retrieve_all().unwrap().into_vec(), vec![(10, 1)]);

    let none = filled(&[]);
    assert_eq!(none.retrieve_range(0..50).err(), Some(StoreError::EmptyRange));
    assert_eq!(none.retrieve_range(1..50).unwrap().into_vec(), vec![]);
    assert_eq!(none.retrieve_from(0).err(), Some(StoreError::EmptyRange));
    assert_eq!(none.retrieve_to(50).unwrap().into_vec(), vec![]);
    assert_eq!(none.retrieve_all().unwrap().into_vec(), vec![]);
}

#[test]
fn unit_buckets_of_a_range_are_the_records_of_the_range() {
    let records = sample();
    let options = PoolingOptions { interval: 1, pooling: PoolingMethod::End, gap_fill: None };
    for n in 2..=records.len() {
        let fs = filled(&records[..n]);
        for from in 0..45u64 {
            for to in 0..45u64 {
                let expected: Vec<(Timestamp, i32)> =
                    records[..n].iter().filter(|r| from <= r.0 && r.0 < to).copied().collect();
                assert_eq!(fs.pool_range(from..to, options).unwrap().into_vec(), expected);
                assert_eq!(
                    fs.pool_range(from..to, options).unwrap().into_vec(),
                    fs.retrieve_range(from..to).unwrap().into_vec()
                );
            }
            assert_eq!(
                fs.pool_from(from, options).unwrap().into_vec(),
                fs.retrieve_from(from).unwrap().into_vec()
            );
            assert_eq!(
                fs.pool_to(from, options).unwrap().into_vec(),
                fs.retrieve_to(from).unwrap().into_vec()
            );
        }
    }
}

#[test]
fn a_range_holds_a_record_at_its_start() {
    let fs = filled(&[(10, 1), (20, 2), (30, 3), (40, 4)]);
    let options = PoolingOptions { interval: 1, pooling: PoolingMethod::End, gap_fill: None };
    assert_eq!(fs.retrieve_range(20..25).unwrap().into_vec(), vec![(20, 2)]);
    assert_eq!(fs.pool_range(20..25, options).unwrap().into_vec(), vec![(20, 2)]);
    assert_eq!(fs.pool_range(5..15, options).unwrap().into_vec(), vec![(10, 1)]);
    assert_eq!(fs.pool_range(31..33, options).unwrap().into_vec(), vec![]);
    assert_eq!(fs.pool_range(30..30, options).unwrap().into_vec(), vec![]);
}

#[test]
fn unit_buckets_give_the_records_back() {
    let records = sample();
    let options = PoolingOptions { interval: 1, pooling: PoolingMethod::End, gap_fill: None };
    for n in 1..=records.len() {
        let fs = filled(&records[..n]);
        assert_eq!(fs.pool_all(options).unwrap().into_vec(), records[..n].to_vec());
    }
    let contiguous = [(5, 1), (6, 2), (7, 3), (8, 4)];
    assert_eq!(filled(&contiguous).pool_all(options).unwrap().into_vec(), contiguous.to_vec());
}
