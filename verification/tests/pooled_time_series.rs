use trade_data::{
    FileStorage, GapFillMethod, KeyValueStore, PooledTimeSeries, PoolingMethod, PoolingOptions,
    Timestamp,
};

fn store_of(records: &[(Timestamp, i32)]) -> FileStorage<Timestamp, i32> {
    let mut fs = FileStorage::<Timestamp, i32>::new(Vec::new()).unwrap();
    for record in records {
        fs.store(record.0, record.1).unwrap();
    }
    fs
}

#[test]
fn test_gap_fill_method() {
    let fs = store_of(&[(10, 1), (14, 2), (15, 3), (20, 4), (26, 5)]);

    let pooling_options = PoolingOptions { interval: 3, pooling: PoolingMethod::Start, gap_fill: Some(GapFillMethod::Previous) };
    let retrieval = fs.pool_all(pooling_options).unwrap();
    assert_eq!(retrieval.as_vec(), Some(&vec![(10, 1), (13, 1), (16, 3), (19, 3), (22, 4), (25, 4)]));

    let pooling_options = PoolingOptions { interval: 3, pooling: PoolingMethod::Start, gap_fill: Some(GapFillMethod::Default) };
    let retrieval = fs.pool_all(pooling_options).unwrap();
    assert_eq!(retrieval.as_vec(), Some(&vec![(10, 1), (13, 2), (16, 0), (19, 4), (22, 0), (25, 5)]));

    let pooling_options = PoolingOptions { interval: 3, pooling: PoolingMethod::Start, gap_fill: None };
    let retrieval = fs.pool_all(pooling_options).unwrap();
    assert_eq!(retrieval.as_vec(), Some(&vec![(10, 1), (13, 1), (19, 3), (25, 4)]));
}

#[test]
fn test_pool_all() {
    let fs = store_of(&[(1, 1), (2, 2), (3, 3)]);

    let pooling_options = PoolingOptions { interval: 1, ..PoolingOptions::default() };
    let retrieval = fs.pool_all(pooling_options).unwrap();
    assert_eq!(retrieval.as_vec(), Some(&vec![(1, 1), (2, 2), (3, 3)]));
}

#[test]
fn test_pool_from() {
    let fs = store_of(&[(10, 1), (20, 2), (30, 3), (40, 4)]);

    let pooling_options = PoolingOptions { interval: 10, ..PoolingOptions::default() };
    let retrieval = fs.pool_from(17, pooling_options).unwrap();
    assert_eq!(retrieval.as_vec(), Some(&vec![(17, 2), (27, 3), (37, 4)]));

    let retrieval = fs.pool_from(7, pooling_options).unwrap();
    assert_eq!(retrieval.as_vec(), Some(&vec![(10, 1), (20, 2), (30, 3), (40, 4)]));
}

#[test]
fn test_pooling_method() {
    let fs = store_of(&[(10, 1), (14, 2), (15, 3), (19, 5), (20, 4), (21, 6), (26, 7)]);

    let pooling_options = PoolingOptions { interval: 3, pooling: PoolingMethod::End, gap_fill: Some(GapFillMethod::Previous) };
    let retrieval = fs.pool_from(12, pooling_options).unwrap();
    assert_eq!(retrieval.as_vec(), Some(&vec![(12, 2), (15, 3), (18, 4), (21, 6), (24, 7)]));

    let pooling_options = PoolingOptions { interval: 3, pooling: PoolingMethod::High, gap_fill: Some(GapFillMethod::Previous) };
    let retrieval = fs.pool_from(12, pooling_options).unwrap();
    assert_eq!(retrieval.as_vec(), Some(&vec![(12, 2), (15, 3), (18, 5), (21, 6), (24, 7)]));

    let pooling_options = PoolingOptions { interval: 3, pooling: PoolingMethod::Low, gap_fill: Some(GapFillMethod::Previous) };
    let retrieval = fs.pool_from(12, pooling_options).unwrap();
    assert_eq!(retrieval.as_vec(), Some(&vec![(12, 2), (15, 3), (18, 4), (21, 6), (24, 7)]));

    let pooling_options = PoolingOptions { interval: 3, pooling: PoolingMethod::Mean, gap_fill: Some(GapFillMethod::Previous) };
    let retrieval = fs.pool_from(12, pooling_options).unwrap();
    assert_eq!(retrieval.as_vec(), Some(&vec![(12, 2), (15, 3), (18, 4), (21, 6), (24, 7)]));

    let pooling_options = PoolingOptions { interval: 3, pooling: PoolingMethod::Start, gap_fill: Some(GapFillMethod::Previous) };
    let retrieval = fs.pool_from(12, pooling_options).unwrap();
    assert_eq!(retrieval.as_vec(), Some(&vec![(12, 1), (15, 3), (18, 3), (21, 6), (24, 6)]));

    let pooling_options = PoolingOptions { interval: 3, pooling: PoolingMethod::Sum, gap_fill: Some(GapFillMethod::Previous) };
    let retrieval = fs.pool_from(12, pooling_options).unwrap();
    assert_eq!(retrieval.as_vec(), Some(&vec![(12, 2), (15, 3), (18, 9), (21, 6), (24, 7)]));
}

#[test]
fn test_pool_range() {
    let fs = store_of(&[(10, 1), (20, 2), (30, 3), (40, 4)]);

    let pooling_options = PoolingOptions { interval: 10, ..PoolingOptions::default() };
    let retrieval = fs.pool_range(10..33, pooling_options).unwrap();
    assert_eq!(retrieval.as_vec(), Some(&vec![(10, 1), (20, 2), (30, 3)]));

    let retrieval = fs.pool_range(31..33, pooling_options).unwrap();
    assert_eq!(retrieval.as_vec(), Some(&vec![]));

    let retrieval = fs.pool_range(7..43, pooling_options).unwrap();
    assert_eq!(retrieval.as_vec(), Some(&vec![(10, 1), (20, 2), (30, 3), (40, 4)]));
}

#[test]
fn test_retrieve_range_is_exclusive() {
    let fs = store_of(&[(10, 1), (20, 2), (30, 3), (40, 4)]);

    let pooling_options = PoolingOptions { interval: 10, ..PoolingOptions::default() };
    let retrieval = fs.pool_range(10..30, pooling_options).unwrap();
    assert_eq!(retrieval.as_vec(), Some(&vec![(10, 1), (20, 2)]));

    let retrieval = fs.pool_range(30..30, pooling_options).unwrap();
    assert_eq!(retrieval.as_vec(), Some(&vec![]));
}

#[test]
fn test_pool_to() {
    let fs = store_of(&[(10, 1), (20, 2), (30, 3), (40, 4)]);

    let pooling_options = PoolingOptions { interval: 10, ..PoolingOptions::default() };
    let retrieval = fs.pool_to(33, pooling_options).unwrap();
    assert_eq!(retrieval.as_vec(), Some(&vec![(10, 1), (20, 2), (30, 3)]));
}

#[test]
fn test_pool_to_is_exclusive() {
    let fs = store_of(&[(10, 1), (20, 2), (30, 3), (40, 4)]);

    let pooling_options = PoolingOptions { interval: 10, ..PoolingOptions::default() };
    let retrieval = fs.pool_to(30, pooling_options).unwrap();
    assert_eq!(retrieval.as_vec(), Some(&vec![(10, 1), (20, 2)]));

    let retrieval = fs.pool_to(10, pooling_options).unwrap();
    assert_eq!(retrieval.as_vec(), Some(&vec![]));
}
