use blockchain::{BlockError, Hex, Timestamp, TransactionError};

#[test]
fn from_bytes() {
    let bytes = [0xff, 0x12, 0xa3];
    assert_eq!(&Hex::from_bytes(&bytes)[..], "ff12a3");
}

#[test]
fn from_bytes_small_byte_takes_one_digit() {
    assert_eq!(Hex::from_bytes(&[0x0a, 0x00, 0x10]), "a010");
}

#[test]
fn from_bytes_empty() {
    assert_eq!(Hex::from_bytes(&[]), "");
}

#[test]
fn timestamp_keeps_nanoseconds() {
    let t = Timestamp::new(12_345_000_000_000);
    assert_eq!(t.nanos(), 12_345_000_000_000);
    assert_eq!(t.0, 12_345_000_000_000);
}

#[test]
fn timestamp_from_clock_reading() {
    assert_eq!(Timestamp::from_clock_reading(Some(42)), Some(Timestamp::new(42)));
    assert_eq!(Timestamp::from_clock_reading(Some(u64::MAX as u128)), Some(Timestamp::new(u64::MAX)));
    assert_eq!(Timestamp::from_clock_reading(Some(u64::MAX as u128 + 1)), None);
    assert_eq!(Timestamp::from_clock_reading(None), None);
}

#[test]
fn current_time_is_after_the_epoch() {
    let t = Timestamp::current_nanos().expect("clock reads after the epoch");
    assert!(t.nanos() > 1_500_000_000_000_000_000);
}

#[test]
fn error_descriptions() {
    assert_eq!(BlockError.description(), "Cannot add block");
    assert_eq!(TransactionError.description(), "Cannot add transaction");
}
