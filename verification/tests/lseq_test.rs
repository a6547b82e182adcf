use cdoc::path::lseq::{write_fractional_index, Segment};
use cdoc::{FractionalIndex, PID};

fn pid(n: u32) -> PID {
    PID::new(n).unwrap()
}

fn seg(pid_val: u32, seq: u32) -> Segment {
    Segment::new(pid(pid_val), seq)
}

fn write_segments(segments: &[Segment]) -> Vec<u8> {
    let mut buf = Vec::new();
    for s in segments {
        s.write(&mut buf);
    }
    buf
}

fn generate_between(lo: &[u8], hi: &[u8], p: PID) -> Vec<u8> {
    let mut result = Vec::new();
    write_fractional_index(&mut result, lo, hi, p);
    result
}

fn assert_parses(bytes: &[u8]) {
    let (parsed, len) = FractionalIndex::from_bytes(bytes).unwrap();
    assert_eq!(len, bytes.len());
    assert_eq!(parsed.bytes(), bytes);
}

#[test]
fn empty_boundaries() {
    let p = pid(1);
    let result = generate_between(&[], &[], p);

    assert!(!result.is_empty());
    assert_parses(&result);
}

#[test]
fn lo_empty_hi_nonempty() {
    let p = pid(1);
    let hi = write_segments(&[seg(2, 5)]);

    let result = generate_between(&[], &hi, p);

    assert_parses(&result);
    assert!(result.as_slice() < hi.as_slice());
}

#[test]
fn lo_nonempty_hi_empty() {
    let p = pid(1);
    let lo = write_segments(&[seg(2, 5)]);

    let result = generate_between(&lo, &[], p);

    assert_parses(&result);
    assert!(result.as_slice() > lo.as_slice());
}

#[test]
fn same_pid_increments_seq_at_same_level() {
    let p = pid(1);
    let lo = write_segments(&[seg(1, 3)]);
    let hi = write_segments(&[seg(2, 10)]);

    let result = generate_between(&lo, &hi, p);

    assert_parses(&result);
    assert!(result.as_slice() > lo.as_slice());
    assert!(result.as_slice() < hi.as_slice());

    // should stay at the same level, not descend into a new segment
    let segments = FractionalIndex::new(&result).segments().into_vec();
    assert_eq!(segments.len(), 1);
    assert_eq!(segments[0], seg(1, 4));
}

#[test]
fn lo_fewer_segments_than_hi() {
    let p = pid(1);
    let lo = write_segments(&[seg(2, 3)]);
    let hi = write_segments(&[seg(2, 3), seg(3, 5)]);

    let result = generate_between(&lo, &hi, p);

    assert_parses(&result);
    assert!(result.as_slice() > lo.as_slice());
    assert!(result.as_slice() < hi.as_slice());
}

#[test]
fn hi_fewer_segments_than_lo() {
    let p = pid(1);
    let lo = write_segments(&[seg(2, 3), seg(3, 5)]);
    let hi = write_segments(&[seg(2, 5)]);

    let result = generate_between(&lo, &hi, p);

    assert_parses(&result);
    assert!(result.as_slice() > lo.as_slice());
    assert!(result.as_slice() < hi.as_slice());
}

#[test]
fn between_many_times_stays_ordered() {
    let p = pid(7);
    let mut lo: Vec<u8> = Vec::new();
    let hi = write_segments(&[seg(9, 2)]);
    for _ in 0..50 {
        let mid = FractionalIndex::between(Some(&lo), Some(&hi), p);
        assert_parses(&mid);
        assert!(mid.as_slice() > lo.as_slice());
        assert!(mid.as_slice() < hi.as_slice());
        lo = mid;
    }
}

#[test]
fn segment_roundtrip() {
    let s = seg(300, 70000);
    let bytes = write_segments(&[s]);
    let (parsed, rest) = Segment::parse(&bytes).unwrap();
    assert_eq!(parsed, s);
    assert!(rest.is_empty());
    assert_eq!(parsed.pid().get(), 300);
    assert_eq!(parsed.seq(), 70000);
}

#[test]
fn from_bytes_stops_at_delimiter() {
    let mut bytes = write_segments(&[seg(2, 3)]);
    let n = bytes.len();
    bytes.push(0);
    bytes.push(42);
    let (parsed, len) = FractionalIndex::from_bytes(&bytes).unwrap();
    assert_eq!(len, n);
    assert_eq!(parsed.bytes(), &bytes[..n]);
}

#[test]
fn from_bytes_rejects_truncated_segment() {
    let bytes = write_segments(&[seg(2, 3)]);
    assert!(FractionalIndex::from_bytes(&bytes[..bytes.len() - 1]).is_none());
}
