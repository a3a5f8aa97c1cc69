use trade_data::{
    FileStorage, GapFillMethod, KeyValueStore, PooledTimeSeries, PoolingMethod, PoolingOptions,
    RetrievalDirection, TimeSeries, Timestamp,
};

fn filled(records: &[(Timestamp, i32)]) -> FileStorage<Timestamp, i32> {
    let mut fs = FileStorage::<Timestamp, i32>::new(Vec::new()).unwrap();
    for record in records {
        fs.store(record.0, record.1).unwrap();
    }
    fs
}

fn carried(interval: Timestamp) -> PoolingOptions {
    PoolingOptions { interval, pooling: PoolingMethod::End, gap_fill: Some(GapFillMethod::Previous) }
}

#[test]
fn test_file_storage_cannot_write_old_time() {
    let mut fs = FileStorage::<Timestamp, i32>::new(Vec::new()).unwrap();

    fs.store(2, 1).unwrap();
    if fs.store(1, 2).is_ok() || fs.store(2, 2).is_ok() {
        panic!("Store should have failed here.");
    }
}

#[test]
fn test_file_storage_gap_fill_method() {
    let fs = filled(&[(10, 1), (14, 2), (15, 3), (20, 4), (26, 5)]);

    let retrieval_options = PoolingOptions { interval: 3, pooling: PoolingMethod::Start, gap_fill: Some(GapFillMethod::Previous) };
    let retrieval = fs.pool_all(retrieval_options).unwrap();
    assert_eq!(retrieval.as_vec(), Some(&vec![(10, 1), (13, 1), (16, 3), (19, 3), (22, 4), (25, 4)]));

    let retrieval_options = PoolingOptions { interval: 3, pooling: PoolingMethod::Start, gap_fill: Some(GapFillMethod::Default) };
    let retrieval = fs.pool_all(retrieval_options).unwrap();
    assert_eq!(retrieval.as_vec(), Some(&vec![(10, 1), (13, 2), (16, 0), (19, 4), (22, 0), (25, 5)]));

    let retrieval_options = PoolingOptions { interval: 3, pooling: PoolingMethod::Start, gap_fill: None };
    let retrieval = fs.pool_all(retrieval_options).unwrap();
    assert_eq!(retrieval.as_vec(), Some(&vec![(10, 1), (13, 1), (19, 3), (25, 4)]));
}

#[test]
fn test_file_storage_pooling_method() {
    let fs = filled(&[(10, 1), (14, 2), (15, 3), (19, 5), (20, 4), (21, 6), (26, 7)]);

    let retrieval_options = PoolingOptions { interval: 3, pooling: PoolingMethod::End, gap_fill: Some(GapFillMethod::Previous) };
    let retrieval = fs.pool_from(12, retrieval_options).unwrap();
    assert_eq!(retrieval.as_vec(), Some(&vec![(12, 2), (15, 3), (18, 4), (21, 6), (24, 7)]));

    let retrieval_options = PoolingOptions { interval: 3, pooling: PoolingMethod::High, gap_fill: Some(GapFillMethod::Previous) };
    let retrieval = fs.pool_from(12, retrieval_options).unwrap();
    assert_eq!(retrieval.as_vec(), Some(&vec![(12, 2), (15, 3), (18, 5), (21, 6), (24, 7)]));

    let retrieval_options = PoolingOptions { interval: 3, pooling: PoolingMethod::Low, gap_fill: Some(GapFillMethod::Previous) };
    let retrieval = fs.pool_from(12, retrieval_options).unwrap();
    assert_eq!(retrieval.as_vec(), Some(&vec![(12, 2), (15, 3), (18, 4), (21, 6), (24, 7)]));

    let retrieval_options = PoolingOptions { interval: 3, pooling: PoolingMethod::Mean, gap_fill: Some(GapFillMethod::Previous) };
    let retrieval = fs.pool_from(12, retrieval_options).unwrap();
    assert_eq!(retrieval.as_vec(), Some(&vec![(12, 2), (15, 3), (18, 4), (21, 6), (24, 7)]));

    let retrieval_options = PoolingOptions { interval: 3, pooling: PoolingMethod::Start, gap_fill: Some(GapFillMethod::Previous) };
    let retrieval = fs.pool_from(12, retrieval_options).unwrap();
    assert_eq!(retrieval.as_vec(), Some(&vec![(12, 1), (15, 3), (18, 3), (21, 6), (24, 6)]));

    let retrieval_options = PoolingOptions { interval: 3, pooling: PoolingMethod::Sum, gap_fill: Some(GapFillMethod::Previous) };
    let retrieval = fs.pool_from(12, retrieval_options).unwrap();
    assert_eq!(retrieval.as_vec(), Some(&vec![(12, 2), (15, 3), (18, 9), (21, 6), (24, 7)]));
}

#[test]
fn test_file_storage_reads_last_time() {
    let fs = filled(&[(1, 1), (2, 2)]);
    let image = fs.bytes().to_vec();
    drop(fs);

    let mut fs = FileStorage::<Timestamp, i32>::new(image).unwrap();
    if fs.store(2, 3).is_ok() {
        panic!("Store should have failed here.");
    }
}

#[test]
fn test_file_storage_retrieval_direction() {
    let fs = filled(&[(10, 1), (15, 1), (20, 2), (30, 3)]);

    let retrieval = fs.retrieve_nearest(22, Some(RetrievalDirection::Forward)).unwrap();
    assert_eq!(retrieval.as_single(), Some(&(30, 3)));

    let retrieval = fs.retrieve_nearest(17, Some(RetrievalDirection::Backward)).unwrap();
    assert_eq!(retrieval.as_single(), Some(&(15, 1)));
}

#[test]
fn test_file_storage_retrieve() {
    let fs = filled(&[(1, 1), (2, 2), (3, 3)]);

    let retrieval = fs.retrieve_nearest(2, None).unwrap();
    assert_eq!(retrieval.as_single(), Some(&(2, 2)));
}

#[test]
fn test_file_storage_retrieve_all() {
    let fs = filled(&[(1, 1), (2, 2), (3, 3)]);

    let retrieval = fs.pool_all(carried(1)).unwrap();
    assert_eq!(retrieval.as_vec(), Some(&vec![(1, 1), (2, 2), (3, 3)]));
}

#[test]
fn test_file_storage_retrieve_from() {
    let fs = filled(&[(10, 1), (20, 2), (30, 3), (40, 4)]);

    let retrieval = fs.pool_from(17, carried(10)).unwrap();
    assert_eq!(retrieval.as_vec(), Some(&vec![(17, 2), (27, 3), (37, 4)]));

    let retrieval = fs.pool_from(7, carried(10)).unwrap();
    assert_eq!(retrieval.as_vec(), Some(&vec![(10, 1), (20, 2), (30, 3), (40, 4)]));
}

#[test]
fn test_file_storage_retrieve_range() {
    let fs = filled(&[(10, 1), (20, 2), (30, 3), (40, 4)]);

    let retrieval = fs.pool_range(10..33, carried(10)).unwrap();
    assert_eq!(retrieval.as_vec(), Some(&vec![(10, 1), (20, 2), (30, 3)]));

    let retrieval = fs.pool_range(31..33, carried(10)).unwrap();
    assert_eq!(retrieval.as_vec(), Some(&vec![]));

    let retrieval = fs.pool_range(7..43, carried(10)).unwrap();
    assert_eq!(retrieval.as_vec(), Some(&vec![(10, 1), (20, 2), (30, 3), (40, 4)]));
}

#[test]
fn test_file_storage_retrieve_range_is_exclusive() {
    let fs = filled(&[(10, 1), (20, 2), (30, 3), (40, 4)]);

    let retrieval = fs.pool_range(10..30, carried(10)).unwrap();
    assert_eq!(retrieval.as_vec(), Some(&vec![(10, 1), (20, 2)]));

    let retrieval = fs.pool_range(30..30, carried(10)).unwrap();
    assert_eq!(retrieval.as_vec(), Some(&vec![]));
}

#[test]
fn test_file_storage_retrieve_to() {
    let fs = filled(&[(10, 1), (20, 2), (30, 3), (40, 4)]);

    let retrieval = fs.pool_to(33, carried(10)).unwrap();
    assert_eq!(retrieval.as_vec(), Some(&vec![(10, 1), (20, 2), (30, 3)]));
}

#[test]
fn test_file_storage_retrieve_to_is_exclusive() {
    let fs = filled(&[(10, 1), (20, 2), (30, 3), (40, 4)]);

    let retrieval = fs.pool_to(30, carried(10)).unwrap();
    assert_eq!(retrieval.as_vec(), Some(&vec![(10, 1), (20, 2)]));

    let retrieval = fs.pool_to(10, carried(10)).unwrap();
    assert_eq!(retrieval.as_vec(), Some(&vec![]));
}

#[test]
fn test_file_storage_store() {
    let fs = filled(&[(1, 1), (2, 2), (3, 3)]);

    // Read in the values we wrote and compare to what we expected
    let value = fs.bytes().to_vec();
    assert_eq!(&value, &String::from("0000000000001    1\n0000000000002    2\n0000000000003    3\n").into_bytes());
}
