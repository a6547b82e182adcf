use cdoc::hlc::Timestamp;
use cdoc::sst::format::{SSTableFooter, FOOTER_SIZE};
use cdoc::sst::read::SSTableReader;
use cdoc::sst::write::SSTableWriter;
use cdoc::Error;

fn build(entries: &[(&[u8], &[u8])]) -> Vec<u8> {
    let ts = Timestamp::new(1_700_000_000_000);
    let mut w = SSTableWriter::new(ts, ts);
    for (k, v) in entries {
        w.add(k, v);
    }
    w.finish()
}

#[test]
fn roundtrip_write_and_read() {
    let ts = Timestamp::new(1_700_000_000_000);
    let mut w = SSTableWriter::new(ts, ts);
    for i in 0u32..100 {
        let key = format!("key_{:05}", i);
        let val = format!("value_{}", i);
        w.add(key.as_bytes(), val.as_bytes());
    }
    let bytes = w.finish();

    let reader = SSTableReader::open(bytes).unwrap();

    // Point lookup.
    let val = reader.get(b"key_00042");
    assert_eq!(val.as_deref(), Some(b"value_42".as_slice()));

    // Missing key.
    assert!(reader.get(b"nonexistent").is_none());
}

#[test]
fn mod_prefix_scan() {
    let bytes = build(&[(b"aaa/1", b"v1"), (b"aaa/2", b"v2"), (b"aab/1", b"v3"), (b"bbb/1", b"v4")]);
    let reader = SSTableReader::open(bytes).unwrap();
    let results = reader.scan_prefix(b"aaa/");
    assert_eq!(results.len(), 2);
    assert_eq!(results[0].0, b"aaa/1");
    assert_eq!(results[1].0, b"aaa/2");
}

#[test]
fn bloom_filter_rejects_missing_keys() {
    let bytes = build(&[(b"existing_key", b"val")]);
    let reader = SSTableReader::open(bytes).unwrap();
    assert!(reader.get(b"definitely_not_here_xyz").is_none());
    assert_eq!(reader.get(b"existing_key"), Some(b"val".to_vec()));
}

#[test]
fn many_blocks_roundtrip() {
    let ts = Timestamp::new(5);
    let mut w = SSTableWriter::new(ts, ts);
    let value = vec![7u8; 1000];
    for i in 0u32..300 {
        let key = format!("k{:06}", i);
        w.add(key.as_bytes(), &value);
    }
    let bytes = w.finish();
    assert!(bytes.len() > 4 * 65536);
    let reader = SSTableReader::open(bytes).unwrap();
    for i in (0u32..300).step_by(7) {
        let key = format!("k{:06}", i);
        assert_eq!(reader.get(key.as_bytes()), Some(value.clone()));
    }
    assert!(reader.get(b"k000300").is_none());
    assert!(reader.get(b"a").is_none());
    let all = reader.scan_prefix(b"k0001");
    assert_eq!(all.len(), 100);
    assert_eq!(all[0].0, b"k000100".to_vec());
    assert_eq!(all[99].0, b"k000199".to_vec());
}

#[test]
fn footer_roundtrip() {
    let bytes = build(&[(b"a", b"1"), (b"b", b"2")]);
    let footer = SSTableFooter::read_at(&bytes, bytes.len() - FOOTER_SIZE);
    assert_eq!(footer.entry_count, 2);
    assert_eq!(footer.version, 1);
    assert_eq!(footer.min_timestamp, Timestamp::new(1_700_000_000_000));
    assert_eq!(footer.to_bytes(), bytes[bytes.len() - FOOTER_SIZE..].to_vec());
    assert_eq!(footer.bloom_len(), 3);
    let body = &bytes[..bytes.len() - FOOTER_SIZE];
    assert_eq!(footer.checksum, crc32fast::hash(body));
}

#[test]
fn empty_table() {
    let bytes = build(&[]);
    let reader = SSTableReader::open(bytes).unwrap();
    assert!(reader.get(b"x").is_none());
    assert!(reader.scan_prefix(b"").is_empty());
}

#[test]
fn open_rejects_short_files() {
    assert!(matches!(SSTableReader::open(vec![0u8; FOOTER_SIZE - 1]), Err(Error::Corruption(_))));
}

#[test]
fn first_block_entry_bytes() {
    let bytes = build(&[(b"abc", b"x"), (b"abd", b"y")]);
    // shared 0, suffix 3, value 1, "abc", "x"; then shared 2, suffix 1, value 1, "d", "y"
    assert_eq!(&bytes[..11], &[0, 0, 3, 0, 1, 0, b'a', b'b', b'c', b'x', 2][..]);
    assert_eq!(&bytes[11..18], &[0, 1, 0, 1, 0, b'd', b'y'][..]);
    let crc = crc32fast::hash(&bytes[..18]);
    assert_eq!(&bytes[18..22], &crc.to_le_bytes()[..]);
}
