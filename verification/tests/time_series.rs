use trade_data::{FileStorage, KeyValueStore, RetrievalDirection, TimeSeries, Timestamp};

fn four_records() -> FileStorage<Timestamp, i32> {
    let mut fs = FileStorage::<Timestamp, i32>::new(Vec::new()).unwrap();

    fs.store(10 as Timestamp, 1 as i32).unwrap();
    fs.store(20 as Timestamp, 2 as i32).unwrap();
    fs.store(30 as Timestamp, 3 as i32).unwrap();
    fs.store(40 as Timestamp, 4 as i32).unwrap();
    fs
}

#[test]
fn test_retrieve_nearest() {
    let fs = four_records();

    let retrieval = fs.retrieve_nearest(5, Some(RetrievalDirection::Forward)).unwrap();
    assert_eq!(retrieval.as_single(), Some(&(10, 1)));

    assert!(fs.retrieve_nearest(5, Some(RetrievalDirection::Backward)).is_err());

    assert!(fs.retrieve_nearest(15, None).is_err());

    let retrieval = fs.retrieve_nearest(25, Some(RetrievalDirection::Backward)).unwrap();
    assert_eq!(retrieval.as_single(), Some(&(20, 2)));
}

#[test]
fn test_retrieve_all() {
    let fs = four_records();

    let retrieval = fs.retrieve_all().unwrap();
    assert_eq!(retrieval.as_vec(), Some(&vec![(10, 1), (20, 2), (30, 3), (40, 4)]));
}

#[test]
fn test_retrieve_from() {
    let fs = four_records();

    let retrieval = fs.retrieve_from(9).unwrap();
    assert_eq!(retrieval.as_vec(), Some(&vec![(10, 1), (20, 2), (30, 3), (40, 4)]));

    let retrieval = fs.retrieve_from(12).unwrap();
    assert_eq!(retrieval.as_vec(), Some(&vec![(20, 2), (30, 3), (40, 4)]));

    let retrieval = fs.retrieve_from(40).unwrap();
    assert_eq!(retrieval.as_vec(), Some(&vec![(40, 4)]));

    let retrieval = fs.retrieve_from(44).unwrap();
    assert_eq!(retrieval.as_vec(), Some(&vec![]));
}

#[test]
fn test_retrieve_to() {
    let fs = four_records();

    let retrieval = fs.retrieve_to(9).unwrap();
    assert_eq!(retrieval.as_vec(), Some(&vec![]));

    let retrieval = fs.retrieve_to(12).unwrap();
    assert_eq!(retrieval.as_vec(), Some(&vec![(10, 1)]));

    let retrieval = fs.retrieve_to(40).unwrap();
    assert_eq!(retrieval.as_vec(), Some(&vec![(10, 1), (20, 2), (30, 3)]));

    let retrieval = fs.retrieve_to(44).unwrap();
    assert_eq!(retrieval.as_vec(), Some(&vec![(10, 1), (20, 2), (30, 3), (40, 4)]));
}

#[test]
fn test_retrieve_range() {
    let fs = four_records();

    let retrieval = fs.retrieve_range(9..21).unwrap();
    assert_eq!(retrieval.as_vec(), Some(&vec![(10, 1), (20, 2)]));

    let retrieval = fs.retrieve_range(9..30).unwrap();
    assert_eq!(retrieval.as_vec(), Some(&vec![(10, 1), (20, 2)]));

    let retrieval = fs.retrieve_range(10..31).unwrap();
    assert_eq!(retrieval.as_vec(), Some(&vec![(10, 1), (20, 2), (30, 3)]));

    let retrieval = fs.retrieve_range(21..44).unwrap();
    assert_eq!(retrieval.as_vec(), Some(&vec![(30, 3), (40, 4)]));
}
