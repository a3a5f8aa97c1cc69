use trade_data::{Data, Retrieval, Timestamp};

#[test]
fn retrieval_of_one_record() {
    let retrieval: Retrieval<Timestamp, i32> = Retrieval::new(Data::Single((10, 1)));
    assert_eq!(retrieval.as_single(), Some(&(10, 1)));
    assert_eq!(retrieval.as_vec(), None);
    assert_eq!(retrieval.into_single(), (10, 1));
}

#[test]
fn retrieval_of_several_records() {
    let retrieval: Retrieval<Timestamp, i32> = Retrieval::new(Data::Many(vec![(10, 1), (20, 2)]));
    assert_eq!(retrieval.as_single(), None);
    assert_eq!(retrieval.as_vec(), Some(&vec![(10, 1), (20, 2)]));
    assert_eq!(retrieval.into_vec(), vec![(10, 1), (20, 2)]);

    let empty: Retrieval<Timestamp, i32> = Retrieval::new(Data::Many(Vec::new()));
    assert_eq!(empty.as_vec(), Some(&vec![]));
}
