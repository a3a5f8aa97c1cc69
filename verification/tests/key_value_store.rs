use trade_data::{FileStorage, KeyValueStore, Timestamp};

#[test]
fn test_cannot_write_old_time() {
    let mut fs = FileStorage::<Timestamp, i32>::new(Vec::new()).unwrap();

    fs.store(2 as Timestamp, 1 as i32).unwrap();
    if fs.store(1 as Timestamp, 2 as i32).is_ok() || fs.store(2 as Timestamp, 2 as i32).is_ok() {
        panic!("Store should have failed here.");
    }
}

#[test]
fn test_len() {
    let mut fs = FileStorage::<Timestamp, i32>::new(Vec::new()).unwrap();

    fs.store(10 as Timestamp, 1 as i32).unwrap();
    fs.store(14 as Timestamp, 2 as i32).unwrap();
    fs.store(15 as Timestamp, 3 as i32).unwrap();
    fs.store(20 as Timestamp, 4 as i32).unwrap();
    fs.store(26 as Timestamp, 5 as i32).unwrap();

    assert_eq!(fs.len(), 5);
}

#[test]
fn test_reads_last_time() {
    let mut fs = FileStorage::<Timestamp, i32>::new(Vec::new()).unwrap();
    fs.store(1 as Timestamp, 1 as i32).unwrap();
    fs.store(2 as Timestamp, 2 as i32).unwrap();
    let image = fs.bytes().to_vec();
    drop(fs);

    let mut fs = FileStorage::<Timestamp, i32>::new(image).unwrap();
    if fs.store(2 as Timestamp, 3 as i32).is_ok() {
        panic!("Store should have failed here.");
    }
}

#[test]
fn test_store() {
    let mut fs = FileStorage::<Timestamp, i32>::new(Vec::new()).unwrap();

    fs.store(1 as Timestamp, 1 as i32).unwrap();
    fs.store(2 as Timestamp, 2 as i32).unwrap();
    fs.store(3 as Timestamp, 3 as i32).unwrap();

    // Read in the values we wrote and compare to what we expected
    let value = fs.bytes().to_vec();
    assert_eq!(
        &value,
        &String::from("0000000000001    1\n0000000000002    2\n0000000000003    3\n").into_bytes()
    );
}
