use trade_data::buckets::{conclude_bucket, gather_buckets};
use trade_data::value::Btc;
use trade_data::{
    ErrorKind, FileStorage, GapFillMethod, KeyValueStore, PooledTimeSeries, PoolingMethod,
    PoolingOptions, StoreError, Timestamp,
};

fn options(interval: Timestamp, pooling: PoolingMethod, gap_fill: Option<GapFillMethod>) -> PoolingOptions {
    PoolingOptions { interval, pooling, gap_fill }
}

#[test]
fn default_options() {
    let options = PoolingOptions::default();
    assert_eq!(options.interval, 0);
    assert_eq!(options.pooling, PoolingMethod::End);
    assert_eq!(options.gap_fill, None);
}

#[test]
fn one_record_is_one_bucket() {
    for pooling in [PoolingMethod::End, PoolingMethod::High, PoolingMethod::Low, PoolingMethod::Mean, PoolingMethod::Start, PoolingMethod::Sum] {
        assert_eq!(gather_buckets(&[(10, 7)], options(5, pooling, None), 10).unwrap(), vec![(10, 7)]);
    }
}

#[test]
fn lead_before_the_anchor_is_carried_only() {
    let records = [(10, 1), (14, 2)];
    let previous = Some(GapFillMethod::Previous);
    assert_eq!(gather_buckets(&records, options(3, PoolingMethod::Start, previous), 12).unwrap(), vec![(12, 1)]);
    assert_eq!(gather_buckets(&records, options(3, PoolingMethod::End, previous), 12).unwrap(), vec![(12, 2)]);
    assert_eq!(gather_buckets(&records, options(3, PoolingMethod::Start, Some(GapFillMethod::Default)), 12).unwrap(), vec![(12, 2)]);
    // The lead alone leaves the first bucket empty.
    assert_eq!(gather_buckets(&records[..1], options(3, PoolingMethod::End, previous), 12).unwrap(), vec![(12, 1)]);
    assert_eq!(gather_buckets(&records[..1], options(3, PoolingMethod::End, Some(GapFillMethod::Default)), 12).unwrap(), vec![(12, 0)]);
    assert_eq!(gather_buckets(&records[..1], options(3, PoolingMethod::End, None), 12).unwrap(), vec![]);
}

#[test]
fn gaps_are_filled_bucket_by_bucket() {
    let records = [(0, 5), (10, 6)];
    assert_eq!(
        gather_buckets(&records, options(3, PoolingMethod::End, Some(GapFillMethod::Previous)), 0).unwrap(),
        vec![(0, 5), (3, 5), (6, 5), (9, 6)]
    );
    assert_eq!(
        gather_buckets(&records, options(3, PoolingMethod::End, Some(GapFillMethod::Default)), 0).unwrap(),
        vec![(0, 5), (3, 0), (6, 0), (9, 6)]
    );
    assert_eq!(gather_buckets(&records, options(3, PoolingMethod::End, None), 0).unwrap(), vec![(0, 5), (9, 6)]);
    // A record at the very end of a bucket opens the next one.
    assert_eq!(gather_buckets(&[(0, 5), (3, 6)], options(3, PoolingMethod::End, None), 0).unwrap(), vec![(0, 5), (3, 6)]);
    assert_eq!(gather_buckets(&[(0, 5), (2, 6)], options(3, PoolingMethod::End, None), 0).unwrap(), vec![(0, 6)]);
}

#[test]
fn high_low_mean_sum_of_a_bucket() {
    let records = [(0, 4), (1, 9), (2, -3), (3, 9), (4, -3)];
    assert_eq!(gather_buckets(&records, options(10, PoolingMethod::High, None), 0).unwrap(), vec![(0, 9)]);
    assert_eq!(gather_buckets(&records, options(10, PoolingMethod::Low, None), 0).unwrap(), vec![(0, -3)]);
    assert_eq!(gather_buckets(&records, options(10, PoolingMethod::Sum, None), 0).unwrap(), vec![(0, 16)]);
    assert_eq!(gather_buckets(&records, options(10, PoolingMethod::Mean, None), 0).unwrap(), vec![(0, 3)]);
    assert_eq!(gather_buckets(&records, options(10, PoolingMethod::Start, None), 0).unwrap(), vec![(0, 4)]);
    assert_eq!(gather_buckets(&records, options(10, PoolingMethod::End, None), 0).unwrap(), vec![(0, -3)]);
}

#[test]
fn records_out_of_order_join_the_open_bucket() {
    let records = [(10, 1), (20, 2), (5, 3), (21, 4)];
    assert_eq!(gather_buckets(&records, options(10, PoolingMethod::Sum, None), 10).unwrap(), vec![(10, 1), (20, 9)]);
}

#[test]
fn buckets_near_the_end_of_time() {
    let top = u64::MAX;
    let records = [(top - 4, 1), (top - 1, 2), (top, 3)];
    assert_eq!(
        gather_buckets(&records, options(3, PoolingMethod::End, Some(GapFillMethod::Previous)), top - 4).unwrap(),
        vec![(top - 4, 1), (top - 1, 3)]
    );
    assert_eq!(gather_buckets(&records, options(top, PoolingMethod::Sum, None), top - 4).unwrap(), vec![(top - 4, 6)]);
    assert_eq!(gather_buckets(&records, options(1, PoolingMethod::End, None), top).unwrap(), vec![(top, 3)]);
}

#[test]
fn buckets_without_a_width_are_refused() {
    let records = [(10, 1), (20, 2)];
    for pooling in [PoolingMethod::End, PoolingMethod::High, PoolingMethod::Low, PoolingMethod::Mean, PoolingMethod::Start, PoolingMethod::Sum] {
        for gap_fill in [None, Some(GapFillMethod::Default), Some(GapFillMethod::Previous)] {
            assert_eq!(gather_buckets(&records, options(0, pooling, gap_fill), 10), Err(StoreError::InvalidInterval));
        }
    }
    assert_eq!(gather_buckets(&records, PoolingOptions::default(), 10), Err(StoreError::InvalidInterval));
    assert_eq!(gather_buckets(&records[..1], PoolingOptions::default(), 10), Err(StoreError::InvalidInterval));
    let none: [(Timestamp, i32); 0] = [];
    assert_eq!(gather_buckets(&none, PoolingOptions::default(), 10), Err(StoreError::InvalidInterval));
    assert_eq!(gather_buckets(&none, options(1, PoolingMethod::End, None), 10), Err(StoreError::UnexpectedEof));
}

#[test]
fn pooling_without_a_width_is_refused() {
    for records in [vec![], vec![(10, 1)], vec![(10, 1), (20, 2), (30, 3)]] {
        let mut fs = FileStorage::<Timestamp, i32>::new(Vec::new()).unwrap();
        for record in &records {
            fs.store(record.0, record.1).unwrap();
        }
        let zero = PoolingOptions::default();
        assert_eq!(fs.pool_all(zero).err(), Some(StoreError::InvalidInterval));
        assert_eq!(fs.pool_from(15, zero).err(), Some(StoreError::InvalidInterval));
        assert_eq!(fs.pool_to(15, zero).err(), Some(StoreError::InvalidInterval));
        assert_eq!(fs.pool_to(5, zero).err(), Some(StoreError::InvalidInterval));
        assert_eq!(fs.pool_range(15..25, zero).err(), Some(StoreError::InvalidInterval));
        assert_eq!(fs.pool_range(25..15, zero).err(), Some(StoreError::InvalidInterval));
    }
    assert_eq!(StoreError::InvalidInterval.kind(), ErrorKind::InvalidInput);
    assert_eq!(StoreError::InvalidInterval.message(), "Pooling interval was zero");
}

#[test]
fn pooled_values_are_one_a_bucket_at_most() {
    let records = [(10, 1), (14, 2), (15, 3), (20, 4), (26, 5)];
    for interval in 1..20u64 {
        for gap_fill in [None, Some(GapFillMethod::Default), Some(GapFillMethod::Previous)] {
            let values = gather_buckets(&records, options(interval, PoolingMethod::End, gap_fill), 10).unwrap();
            let buckets = (26 - 10) / interval + 1;
            assert!(values.len() as u64 <= buckets);
            if gap_fill.is_some() {
                assert_eq!(values.len() as u64, buckets);
            }
            for (k, value) in values.iter().enumerate() {
                assert_eq!((value.0 - 10) % interval, 0);
                if k > 0 {
                    assert!(values[k - 1].0 < value.0);
                }
            }
        }
    }
}

#[test]
fn concluding_a_bucket() {
    let mut values: Vec<(Timestamp, i32)> = vec![(1, 1)];
    conclude_bucket(&vec![(5, 7), (6, 8)], 4, &mut values, (2, 99), options(3, PoolingMethod::Start, None));
    assert_eq!(values, vec![(1, 1), (4, 99)]);
    conclude_bucket(&vec![(7, 7), (8, 8)], 7, &mut values, (2, 99), options(3, PoolingMethod::Start, None));
    assert_eq!(values, vec![(1, 1), (4, 99), (7, 7)]);
    conclude_bucket(&vec![], 10, &mut values, (2, 99), options(3, PoolingMethod::Start, None));
    assert_eq!(values, vec![(1, 1), (4, 99), (7, 7)]);
    conclude_bucket(&vec![], 10, &mut values, (2, 99), options(3, PoolingMethod::Start, Some(GapFillMethod::Previous)));
    assert_eq!(values, vec![(1, 1), (4, 99), (7, 7), (10, 99)]);
}

#[test]
fn pooled_amounts() {
    let mut fs = FileStorage::<Timestamp, Btc>::new(Vec::new()).unwrap();
    fs.store(10, Btc::new(1234567890)).unwrap();
    fs.store(11, Btc::new(4793323)).unwrap();
    fs.store(12, Btc::new(498432214)).unwrap();
    fs.store(25, Btc::new(5)).unwrap();
    assert_eq!(fs.bytes().len(), 4 * 30);
    assert_eq!(&fs.bytes()[..30], b"0000000000010     12.34567890\n");
    let pooled = |pooling| fs.pool_all(options(10, pooling, Some(GapFillMethod::Default))).unwrap().into_vec();
    assert_eq!(pooled(PoolingMethod::Sum), vec![(10, Btc::new(1737793427)), (20, Btc::new(5))]);
    assert_eq!(pooled(PoolingMethod::Mean), vec![(10, Btc::new(579264475)), (20, Btc::new(5))]);
    assert_eq!(pooled(PoolingMethod::High), vec![(10, Btc::new(1234567890)), (20, Btc::new(5))]);
    assert_eq!(pooled(PoolingMethod::Low), vec![(10, Btc::new(4793323)), (20, Btc::new(5))]);
}

#[test]
fn pool_gap_fill_behaviors() {
    let records = [(10, 1), (14, 2), (15, 3), (20, 4), (26, 5)];
    let previous = gather_buckets(&records, options(3, PoolingMethod::Start, Some(GapFillMethod::Previous)), 10).unwrap();
    assert_eq!(previous, vec![(10, 1), (13, 1), (16, 3), (19, 3), (22, 4), (25, 4)]);
    let default = gather_buckets(&records, options(3, PoolingMethod::Start, Some(GapFillMethod::Default)), 10).unwrap();
    assert_eq!(default, vec![(10, 1), (13, 2), (16, 0), (19, 4), (22, 0), (25, 5)]);
    let none = gather_buckets(&records, options(3, PoolingMethod::Start, None), 10).unwrap();
    assert_eq!(none, vec![(10, 1), (13, 1), (19, 3), (25, 4)]);
}

#[test]
fn pool_ranges_as_they_are_scanned() {
    let mut fs = FileStorage::<Timestamp, i32>::new(Vec::new()).unwrap();
    for record in [(10, 1), (20, 2), (30, 3), (40, 4)] {
        fs.store(record.0, record.1).unwrap();
    }
    let ten = options(10, PoolingMethod::End, None);
    assert_eq!(fs.pool_range(15..33, ten).unwrap().into_vec(), vec![(15, 2), (25, 3)]);
    assert_eq!(fs.pool_range(25..33, ten).unwrap().into_vec(), vec![(25, 3)]);
    // A range whose only record is the one the scan starts at holds that record.
    assert_eq!(fs.pool_range(20..30, ten).unwrap().into_vec(), vec![(20, 2)]);
    assert_eq!(fs.pool_range(20..25, ten).unwrap().into_vec(), vec![(20, 2)]);
    assert_eq!(fs.pool_range(20..21, ten).unwrap().into_vec(), vec![(20, 2)]);
    assert_eq!(fs.pool_range(5..15, ten).unwrap().into_vec(), vec![(10, 1)]);
    assert_eq!(fs.pool_range(10..11, ten).unwrap().into_vec(), vec![(10, 1)]);
    assert_eq!(fs.pool_range(40..99, ten).unwrap().into_vec(), vec![(40, 4)]);
    // A record before the range is carried only: alone, it gives nothing.
    assert_eq!(fs.pool_range(21..30, ten).unwrap().into_vec(), vec![]);
    assert_eq!(fs.pool_range(31..33, ten).unwrap().into_vec(), vec![]);
    assert_eq!(fs.pool_range(30..30, ten).unwrap().into_vec(), vec![]);
    assert_eq!(fs.pool_range(41..99, ten).unwrap().into_vec(), vec![]);
    let filled = options(10, PoolingMethod::End, Some(GapFillMethod::Previous));
    assert_eq!(fs.pool_range(21..30, filled).unwrap().into_vec(), vec![]);
    assert_eq!(fs.pool_range(20..30, filled).unwrap().into_vec(), vec![(20, 2)]);
    assert_eq!(fs.pool_range(35..25, ten).unwrap().into_vec(), vec![]);
    assert_eq!(fs.pool_range(5..10, ten).unwrap().into_vec(), vec![]);
    assert_eq!(fs.pool_range(5..9, ten).unwrap().into_vec(), vec![]);
    assert_eq!(fs.pool_to(9, ten).unwrap().into_vec(), vec![]);
    assert_eq!(fs.pool_to(11, ten).unwrap().into_vec(), vec![(10, 1)]);
    assert_eq!(fs.pool_to(99, ten).unwrap().into_vec(), vec![(10, 1), (20, 2), (30, 3), (40, 4)]);
    assert_eq!(fs.pool_from(99, ten).unwrap().into_vec(), vec![]);
    assert_eq!(fs.pool_from(40, ten).unwrap().into_vec(), vec![(40, 4)]);
}
