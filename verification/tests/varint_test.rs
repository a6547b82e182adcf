use cdoc::varint::{read_varint, write_varint, VarInt};
use cdoc::PID;

#[test]
fn varint_roundtrip_and_order() {
    let values: [u64; 6] = [0, 1, 255, 256, 65535, u64::MAX];
    let mut encoded: Vec<Vec<u8>> = Vec::new();
    for v in values {
        let mut out = Vec::new();
        v.write(&mut out);
        let (back, n) = u64::read_from(&out).unwrap();
        assert_eq!(back, v);
        assert_eq!(n, out.len());
        encoded.push(out);
    }
    for w in encoded.windows(2) {
        assert!(w[0] < w[1]);
    }
}

#[test]
fn varint_rejects_truncated_and_too_wide() {
    let mut out = Vec::new();
    write_varint(70000, &mut out);
    assert!(read_varint(&out[..out.len() - 1], 8).is_none());
    assert!(read_varint(&out, 2).is_none());
    assert_eq!(read_varint(&out, 4), Some((70000, out.len())));
}

#[test]
fn pid_parse_and_bytes() {
    assert!(PID::new(0).is_none());
    let p = PID::new(0x01020304).unwrap();
    assert_eq!(p.to_bytes(), vec![1, 2, 3, 4]);
    assert_eq!(PID::parse(&[1, 2, 3, 4]), Some(p));
    assert!(PID::parse(&[0, 0, 0, 0]).is_none());
    assert!(PID::parse(&[1, 2, 3]).is_none());
    assert!(PID::random().get() != 0);
}
