use cdoc::hlc::{HybridClock, Timestamp};
use std::time::{SystemTime, UNIX_EPOCH};

fn wall_millis() -> u64 {
    SystemTime::now().duration_since(UNIX_EPOCH).unwrap().as_millis() as u64
}

#[test]
fn timestamp_precision() {
    let now = wall_millis();
    let t1 = Timestamp::from_unix_millis(now);
    let elapsed = now - t1.get();
    assert!(
        elapsed < 250,
        "timestamp time window should remain under 250ms, but was {}",
        elapsed
    );
}

#[test]
fn deserialized_future_timestamp_advances_counter() {
    let mut clock = HybridClock::new();
    let before = Timestamp::now(&mut clock, wall_millis());
    let future = Timestamp::new(before.get() + 100_000);
    Timestamp::sync(&mut clock, future);
    let after = Timestamp::now(&mut clock, wall_millis());
    assert!(after.get() > future.get());
}

#[test]
fn now_strictly_increases_on_one_clock() {
    let mut clock = HybridClock::new();
    let wall = wall_millis();
    let mut last = Timestamp::now(&mut clock, wall);
    for _ in 0..1000 {
        let next = Timestamp::now(&mut clock, wall);
        assert!(next.get() > last.get());
        last = next;
    }
}

#[test]
fn now_follows_the_masked_wall_clock() {
    let mut clock = HybridClock::new();
    let t = Timestamp::now(&mut clock, 0x1234);
    assert_eq!(t.get(), 0x1201);
    let u = Timestamp::now(&mut clock, 0x1234);
    assert_eq!(u.get(), 0x1202);
    let v = Timestamp::now(&mut clock, 0x5678);
    assert_eq!(v.get(), 0x5601);
}

#[test]
fn sync_returns_the_previous_latest() {
    let mut clock = HybridClock::new();
    let first = Timestamp::now(&mut clock, 1000);
    let prev = Timestamp::sync(&mut clock, Timestamp::new(5000));
    assert_eq!(prev.get(), first.get());
    let prev2 = Timestamp::sync(&mut clock, Timestamp::new(10));
    assert_eq!(prev2.get(), 5000);
    assert_eq!(Timestamp::now(&mut clock, 0).get(), 5001);
}

#[test]
fn timestamp_bytes_roundtrip() {
    let t = Timestamp::new(0x0102_0304_0506_0708);
    let b = t.to_bytes();
    assert_eq!(b, vec![1, 2, 3, 4, 5, 6, 7, 8]);
    assert_eq!(Timestamp::from_bytes(&b).unwrap().get(), t.get());
    assert!(Timestamp::from_bytes(&b[..7]).is_none());
}

#[test]
fn from_unix_millis_clears_seven_bits() {
    assert_eq!(Timestamp::from_unix_millis(0x12ff).get(), 0x1280);
    assert_eq!(Timestamp::from_unix_millis(250).get(), 128);
    assert_eq!(Timestamp::from_unix_millis(127).get(), 0);
}

#[test]
fn timestamp_renders_as_rfc3339() {
    let t = Timestamp::new(947_638_923_004);
    assert_eq!(t.to_rfc3339(), Some("2000-01-12T01:02:03.004+00:00".to_string()));
    assert_eq!(Timestamp::new(0).to_rfc3339(), Some("1970-01-01T00:00:00+00:00".to_string()));
    assert_eq!(Timestamp::new(i64::MAX as u64).to_rfc3339(), None);
}
