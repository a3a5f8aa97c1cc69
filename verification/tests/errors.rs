use trade_data::storage::file::{binary_search_for_key, read_key, read_record, write_record};
use trade_data::{
    ErrorKind, FileStorage, KeyValueStore, PooledTimeSeries, PoolingMethod, PoolingOptions,
    RetrievalDirection, StoreError, TimeSeries, Timestamp,
};

fn image_of(records: &[(Timestamp, i32)]) -> Vec<u8> {
    let mut fs = FileStorage::<Timestamp, i32>::new(Vec::new()).unwrap();
    for record in records {
        fs.store(record.0, record.1).unwrap();
    }
    fs.bytes().to_vec()
}

fn opened(records: &[(Timestamp, i32)]) -> FileStorage<Timestamp, i32> {
    FileStorage::<Timestamp, i32>::new(image_of(records)).unwrap()
}

#[test]
fn image_of_a_broken_length_is_refused() {
    let r = FileStorage::<Timestamp, i32>::new(vec![b'0'; 5]);
    assert_eq!(r.err(), Some(StoreError::InvalidSize));
    let r = FileStorage::<Timestamp, i32>::new(vec![b'0'; 20]);
    assert_eq!(r.err(), Some(StoreError::InvalidSize));
    assert_eq!(StoreError::InvalidSize.kind(), ErrorKind::InvalidData);
}

#[test]
fn image_with_an_unreadable_end_is_refused() {
    let r = FileStorage::<Timestamp, i32>::new(vec![b'x'; 19]);
    assert_eq!(r.err(), Some(StoreError::Malformed));

    let mut image = image_of(&[(1, 1), (2, 2), (3, 3)]);
    image[38] = b'x';
    let r = FileStorage::<Timestamp, i32>::new(image);
    assert_eq!(r.err(), Some(StoreError::Malformed));
    assert_eq!(StoreError::Malformed.kind(), ErrorKind::InvalidData);
}

#[test]
fn image_with_an_unreadable_middle_is_opened_and_found_out() {
    let mut image = image_of(&[(1, 1), (2, 2), (3, 3)]);
    image[19] = b'x';
    let fs = FileStorage::<Timestamp, i32>::new(image).unwrap();
    assert_eq!(fs.len(), 3);
    assert!(!fs.is_intact());
    assert_eq!(fs.retrieve_all().err(), Some(StoreError::Malformed));
    assert_eq!(fs.retrieve_nearest(2, None).err(), Some(StoreError::Malformed));
}

#[test]
fn image_out_of_order_is_found_out() {
    let mut image = image_of(&[(1, 1), (2, 2), (3, 3)]);
    image[31] = b'9';
    let fs = FileStorage::<Timestamp, i32>::new(image).unwrap();
    assert!(!fs.is_intact());
    assert!(opened(&[(1, 1), (2, 2), (3, 3)]).is_intact());
    assert!(opened(&[]).is_intact());
}

#[test]
fn key_at_or_before_the_last_is_refused() {
    let mut fs = opened(&[(10, 1), (20, 2)]);
    let before = fs.bytes().to_vec();
    assert_eq!(fs.store(20, 3), Err(StoreError::KeyNotAfterLast));
    assert_eq!(fs.store(5, 3), Err(StoreError::KeyNotAfterLast));
    assert_eq!(fs.store(0, 3), Err(StoreError::KeyNotAfterLast));
    assert_eq!(fs.bytes(), &before[..]);
    assert_eq!(fs.len(), 2);
    assert_eq!(StoreError::KeyNotAfterLast.kind(), ErrorKind::InvalidInput);
    assert_eq!(StoreError::KeyNotAfterLast.message(), "Passed key was equal to or before the last recorded key");
}

#[test]
fn first_key_may_be_zero() {
    let mut fs = opened(&[]);
    assert_eq!(fs.store(0, 7), Ok(()));
    assert_eq!(fs.store(0, 8), Err(StoreError::KeyNotAfterLast));
    assert_eq!(fs.bytes(), b"0000000000000    7\n");
}

#[test]
fn record_that_does_not_fit_is_refused() {
    let mut fs = opened(&[(10, 1)]);
    let before = fs.bytes().to_vec();
    assert_eq!(fs.store(10_000_000_000_000, 1), Err(StoreError::OutOfRange));
    assert_eq!(fs.store(11, 10_000), Err(StoreError::OutOfRange));
    assert_eq!(fs.store(11, -1000), Err(StoreError::OutOfRange));
    assert_eq!(fs.bytes(), &before[..]);
    assert_eq!(fs.len(), 1);
    assert_eq!(fs.store(11, -999), Ok(()));
    assert_eq!(StoreError::OutOfRange.kind(), ErrorKind::InvalidInput);
}

#[test]
fn search_failures() {
    let fs = opened(&[(10, 1), (20, 2), (30, 3), (40, 4)]);
    assert_eq!(fs.retrieve_nearest(5, None).err(), Some(StoreError::BeforeRange));
    assert_eq!(fs.retrieve_nearest(5, Some(RetrievalDirection::Backward)).err(), Some(StoreError::BeforeRange));
    assert_eq!(fs.retrieve_nearest(45, None).err(), Some(StoreError::AfterRange));
    assert_eq!(fs.retrieve_nearest(45, Some(RetrievalDirection::Forward)).err(), Some(StoreError::AfterRange));
    assert_eq!(fs.retrieve_nearest(25, None).err(), Some(StoreError::KeyNotFound));
    assert_eq!(opened(&[(10, 1)]).retrieve_nearest(10, None).err(), Some(StoreError::EmptyRange));
    assert_eq!(opened(&[]).retrieve_nearest(10, None).err(), Some(StoreError::EmptyRange));
    for e in [StoreError::BeforeRange, StoreError::AfterRange, StoreError::KeyNotFound, StoreError::EmptyRange] {
        assert_eq!(e.kind(), ErrorKind::NotFound);
    }
    assert_eq!(StoreError::EmptyRange.message(), "No items in search range");
    assert_eq!(StoreError::BeforeRange.message(), "Search key is before the search range");
    assert_eq!(StoreError::AfterRange.message(), "Search key is after the search range");
    assert_eq!(StoreError::KeyNotFound.message(), "Search key was not found");
}

#[test]
fn search_of_a_part_of_the_image() {
    let image = image_of(&[(10, 1), (20, 2), (30, 3), (40, 4), (50, 5)]);
    let search = |direction, key: Timestamp, start: u64, end: u64| {
        binary_search_for_key::<Timestamp, i32>(&image, direction, key, start, end)
    };
    assert_eq!(search(None, 30, 19, 57), Ok(38));
    assert_eq!(search(None, 10, 19, 57), Err(StoreError::BeforeRange));
    assert_eq!(search(Some(RetrievalDirection::Forward), 10, 19, 57), Ok(19));
    assert_eq!(search(Some(RetrievalDirection::Backward), 50, 19, 57), Ok(57));
    assert_eq!(search(None, 50, 19, 57), Err(StoreError::AfterRange));
    assert_eq!(search(Some(RetrievalDirection::Forward), 31, 19, 57), Ok(57));
    assert_eq!(search(Some(RetrievalDirection::Backward), 39, 19, 57), Ok(38));
    assert_eq!(search(None, 30, 38, 38), Err(StoreError::EmptyRange));
    assert_eq!(search(None, 45, 0, 76), Err(StoreError::KeyNotFound));
    assert_eq!(search(Some(RetrievalDirection::Forward), 45, 0, 76), Ok(76));
    assert_eq!(search(Some(RetrievalDirection::Backward), 45, 0, 76), Ok(57));
}

#[test]
fn bound_at_the_first_record() {
    let fs = opened(&[(10, 1), (20, 2), (30, 3)]);
    assert_eq!(fs.find_to(10), Err(StoreError::BoundAtFirstRecord));
    assert_eq!(fs.find_to(9), Err(StoreError::BeforeRange));
    assert_eq!(fs.find_to(11), Ok(0));
    assert_eq!(fs.find_to(20), Ok(0));
    assert_eq!(fs.find_to(21), Ok(19));
    assert_eq!(fs.find_to(99), Ok(38));
    assert_eq!(opened(&[(10, 1)]).find_to(99), Err(StoreError::EmptyRange));
    assert_eq!(StoreError::BoundAtFirstRecord.kind(), ErrorKind::InvalidInput);
    assert_eq!(StoreError::BoundAtFirstRecord.message(), "find_to search key was equal to the first record");
}

#[test]
fn start_of_a_scan() {
    let fs = opened(&[(10, 1), (20, 2), (30, 3)]);
    assert_eq!(fs.find_from(5), Ok((10, 0)));
    assert_eq!(fs.find_from(10), Ok((10, 0)));
    assert_eq!(fs.find_from(15), Ok((15, 0)));
    assert_eq!(fs.find_from(20), Ok((20, 19)));
    assert_eq!(fs.find_from(99), Ok((99, 38)));
    assert_eq!(opened(&[(10, 1)]).find_from(5), Ok((10, 0)));
    assert_eq!(opened(&[(10, 1)]).find_from(10), Err(StoreError::EmptyRange));
    assert_eq!(opened(&[]).find_from(10), Err(StoreError::EmptyRange));
}

#[test]
fn reading_beyond_the_end() {
    let image = image_of(&[(10, 1)]);
    assert_eq!(read_record::<Timestamp, i32>(&image, 0), Ok((10, 1)));
    assert_eq!(read_record::<Timestamp, i32>(&image, 1), Err(StoreError::UnexpectedEof));
    assert_eq!(read_record::<Timestamp, i32>(&image, 19), Err(StoreError::UnexpectedEof));
    assert_eq!(read_record::<Timestamp, i32>(&image, usize::MAX), Err(StoreError::UnexpectedEof));
    assert_eq!(read_key::<Timestamp>(&image, 0), Ok(10));
    assert_eq!(read_key::<Timestamp>(&image, 6), Err(StoreError::Malformed));
    assert_eq!(read_key::<Timestamp>(&image, 7), Err(StoreError::UnexpectedEof));
    assert_eq!(read_key::<Timestamp>(&image, 3), Err(StoreError::Malformed));
    assert_eq!(StoreError::UnexpectedEof.kind(), ErrorKind::UnexpectedEof);

    let options = PoolingOptions { interval: 1, pooling: PoolingMethod::End, gap_fill: None };
    assert_eq!(opened(&[]).pool_all(options).err(), Some(StoreError::UnexpectedEof));
    assert_eq!(opened(&[]).read_run(0, 1).err(), Some(StoreError::UnexpectedEof));
    assert_eq!(opened(&[]).read_run(0, 0), Ok(vec![]));
}

#[test]
fn records_with_misplaced_separators_are_malformed() {
    assert_eq!(read_record::<Timestamp, i32>(b"0000000000010    1\n", 0), Ok((10, 1)));
    assert_eq!(read_record::<Timestamp, i32>(b"0000000000010_   1\n", 0), Err(StoreError::Malformed));
    assert_eq!(read_record::<Timestamp, i32>(b"0000000000010    1 ", 0), Err(StoreError::Malformed));
    assert_eq!(read_record::<Timestamp, i32>(b"000000000001     1\n", 0), Err(StoreError::Malformed));
    assert_eq!(read_record::<Timestamp, i32>(b"0000000000010     \n", 0), Err(StoreError::Malformed));
}

#[test]
fn writing_a_record() {
    let mut image = b"abc".to_vec();
    assert_eq!(write_record::<Timestamp, i32>(&mut image, 7, -3), Ok(()));
    assert_eq!(image, b"abc0000000000007   -3\n".to_vec());
    assert_eq!(write_record::<Timestamp, i32>(&mut image, 7, 10_000), Err(StoreError::OutOfRange));
    assert_eq!(write_record::<Timestamp, i32>(&mut image, 10_000_000_000_000, 1), Err(StoreError::OutOfRange));
    assert_eq!(image, b"abc0000000000007   -3\n".to_vec());
}
