use trade_data::value::{Btc, Usd, Value};
use trade_data::{Poolable, Storable};

#[test]
fn test_btc_whole() {
    let value = Btc::new(1234567890);

    assert_eq!(value.whole(), 12i64);
}

#[test]
fn test_btc_fractional() {
    let value = Btc::new(1234567890);

    assert_eq!(value.fractional(), 34567890i64);
}

#[test]
fn test_btc_display() {
    let value = Btc::new(1234567890);

    assert_eq!(&value.to_text(), "12.34567890");
}

#[test]
fn test_btc_storable_file_storage_into_bytes() {
    let value = Btc::new(1234567890);

    assert_eq!(value.into_bytes().unwrap(), format!("    12.34567890").into_bytes());
}

#[test]
fn test_btc_storable_file_storage_from_bytes() {
    let value = Btc::from_bytes(&Btc::new(1234567890).into_bytes().unwrap());

    assert!(value.is_ok());
    assert!(value.unwrap() == Btc::new(1234567890));
}

#[test]
fn test_btc_storable_file_storage_mean() {
    let values = vec![Btc::new(1234567890), Btc::new(4793323), Btc::new(498432214)];

    assert_eq!(Btc::mean(&values), Btc::new(579264475));
}

#[test]
fn test_btc_storable_file_storage_sum() {
    let values = vec![Btc::new(1234567890), Btc::new(4793323), Btc::new(498432214)];

    assert_eq!(Btc::sum(&values), Btc::new(1737793427));
}

#[test]
fn test_usd_storable_file_storage_into_bytes() {
    let value = Usd::new(12345);

    assert_eq!(value.into_bytes().unwrap(), format!("   123.45").into_bytes());
}

#[test]
fn test_usd_storable_file_storage_from_bytes() {
    let value = Usd::from_bytes(&Usd::new(12345).into_bytes().unwrap());

    assert!(value.is_ok());
    assert!(value.unwrap() == Usd::new(12345));
}

#[test]
fn test_usd_storable_file_storage_mean() {
    let values = vec![Usd::new(12345), Usd::new(479), Usd::new(9467)];

    assert_eq!(Usd::mean(&values), Usd::new(7430));
}

#[test]
fn test_usd_storable_file_storage_sum() {
    let values = vec![Usd::new(12345), Usd::new(479), Usd::new(9467)];

    assert_eq!(Usd::sum(&values), Usd::new(22291));
}
