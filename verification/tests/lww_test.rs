use cdoc::hlc::Timestamp;
use cdoc::path::lww::LWWHeader;
use cdoc::{Error, PID};

fn register(ts: u64, pid: u32, value: &[u8]) -> Vec<u8> {
    let header = LWWHeader::new(Timestamp::new(ts), PID::new(pid).unwrap());
    let mut buf = Vec::with_capacity(LWWHeader::SIZE + value.len());
    buf.extend_from_slice(&header.to_bytes());
    buf.extend_from_slice(value);
    buf
}

#[test]
fn merge_returns_register_with_higher_timestamp() {
    let left = register(10, 1, b"old");
    let right = register(20, 1, b"new");
    let result = LWWHeader::merge(&left, &right).unwrap();
    assert!(std::ptr::eq(result, right.as_slice()));
}

#[test]
fn merge_returns_register_with_higher_timestamp_reversed() {
    let left = register(20, 1, b"new");
    let right = register(10, 1, b"old");
    let result = LWWHeader::merge(&left, &right).unwrap();
    assert!(std::ptr::eq(result, left.as_slice()));
}

#[test]
fn merge_uses_pid_as_tiebreaker_when_timestamps_equal() {
    let left = register(10, 1, b"lo-pid");
    let right = register(10, 2, b"hi-pid");
    let result = LWWHeader::merge(&left, &right).unwrap();
    assert!(std::ptr::eq(result, right.as_slice()));
}

#[test]
fn merge_uses_pid_as_tiebreaker_reversed() {
    let left = register(10, 2, b"hi-pid");
    let right = register(10, 1, b"lo-pid");
    let result = LWWHeader::merge(&left, &right).unwrap();
    assert!(std::ptr::eq(result, left.as_slice()));
}

#[test]
fn merge_rejects_short_registers() {
    let left = register(10, 2, b"x");
    let short = vec![0u8; 11];
    assert_eq!(LWWHeader::merge(&left, &short), Err(Error::ZeroCopy));
    assert_eq!(LWWHeader::merge(&short, &left), Err(Error::ZeroCopy));
}

#[test]
fn merge_of_identical_headers_picks_right() {
    let left = register(10, 1, b"a");
    let right = register(10, 1, b"b");
    let result = LWWHeader::merge(&left, &right).unwrap();
    assert!(std::ptr::eq(result, right.as_slice()));
}

#[test]
fn merge_is_associative_on_examples() {
    let a = register(5, 3, b"a");
    let b = register(7, 1, b"b");
    let c = register(7, 2, b"c");
    let ab = LWWHeader::merge(&a, &b).unwrap();
    let left = LWWHeader::merge(ab, &c).unwrap();
    let bc = LWWHeader::merge(&b, &c).unwrap();
    let right = LWWHeader::merge(&a, bc).unwrap();
    assert_eq!(left, right);
    assert_eq!(left, c.as_slice());
}

#[test]
fn header_bytes_are_big_endian() {
    let header = LWWHeader::new(Timestamp::new(0x0102), PID::new(0x0304).unwrap());
    assert_eq!(header.to_bytes(), vec![0, 0, 0, 0, 0, 0, 1, 2, 0, 0, 3, 4]);
    assert_eq!(header.timestamp().get(), 0x0102);
    assert_eq!(header.pid().get(), 0x0304);
}
