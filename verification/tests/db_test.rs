use cdoc::db::{apply_records, lookup, merge_scan, needs_flush, sstable_bytes, DEFAULT_MEMTABLE_SIZE};
use cdoc::wal::WalRecord;
use cdoc::hlc::Timestamp;
use cdoc::sst::memtable::MemTable;
use cdoc::sst::read::SSTableReader;
use cdoc::sst::write::SSTableWriter;
use cdoc::DbOptions;
use std::sync::Arc;

fn table(entries: &[(&[u8], &[u8])]) -> Arc<SSTableReader> {
    let ts = Timestamp::new(1);
    let mut w = SSTableWriter::new(ts, ts);
    for (k, v) in entries {
        w.add(k, v);
    }
    Arc::new(SSTableReader::open(w.finish()).unwrap())
}

#[test]
fn options_defaults_and_builder() {
    let o = DbOptions::new("/tmp/db");
    assert_eq!(o.base_path(), "/tmp/db");
    assert_eq!(o.wal_path(), "/tmp/db");
    assert_eq!(o.memtable_size(), DEFAULT_MEMTABLE_SIZE);
    assert_eq!(o.memtable_size(), 4 * 1024 * 1024);
    let o = o.with_memtable_size(1024);
    assert_eq!(o.memtable_size(), 1024);
    assert_eq!(o.base_path(), "/tmp/db");
}

#[test]
fn lookup_prefers_memtable_then_newest_table() {
    let newer = table(&[(b"a", b"new"), (b"b", b"from-newer")]);
    let older = table(&[(b"a", b"old"), (b"c", b"from-older")]);
    let mut mem = MemTable::new();
    mem.insert(b"b", b"from-mem".to_vec());
    let ssts = vec![newer, older];
    assert_eq!(lookup(&mem, &ssts, b"a"), Some(b"new".to_vec()));
    assert_eq!(lookup(&mem, &ssts, b"b"), Some(b"from-mem".to_vec()));
    assert_eq!(lookup(&mem, &ssts, b"c"), Some(b"from-older".to_vec()));
    assert_eq!(lookup(&mem, &ssts, b"d"), None);
}

#[test]
fn scan_merges_newest_wins_sorted() {
    let newer = table(&[(b"p/1", b"n1"), (b"p/3", b"n3")]);
    let older = table(&[(b"p/1", b"o1"), (b"p/2", b"o2"), (b"q/1", b"o9")]);
    let mut mem = MemTable::new();
    mem.insert(b"p/2", b"m2".to_vec());
    mem.insert(b"p/4", b"m4".to_vec());
    let ssts = vec![newer, older];
    let r = merge_scan(b"p/", &mem, &ssts);
    assert_eq!(
        r,
        vec![
            (b"p/1".to_vec(), b"n1".to_vec()),
            (b"p/2".to_vec(), b"m2".to_vec()),
            (b"p/3".to_vec(), b"n3".to_vec()),
            (b"p/4".to_vec(), b"m4".to_vec()),
        ]
    );
}

#[test]
fn scan_with_no_tables() {
    let mut mem = MemTable::new();
    mem.insert(b"x", b"1".to_vec());
    assert_eq!(merge_scan(b"x", &mem, &Vec::new()), vec![(b"x".to_vec(), b"1".to_vec())]);
    assert!(merge_scan(b"y", &mem, &Vec::new()).is_empty());
}

fn flush(mem: &MemTable) -> Arc<SSTableReader> {
    let ts = Timestamp::new(2);
    let mut w = SSTableWriter::new(ts, ts);
    for (k, v) in mem.iter() {
        w.add(k, v);
    }
    Arc::new(SSTableReader::open(w.finish()).unwrap())
}

#[test]
fn flushed_memtable_reads_back() {
    let mut mem = MemTable::new();
    for i in 0u32..50 {
        let key = format!("key_{:04}", i);
        let val = format!("value_{:04}", i);
        mem.insert(key.as_bytes(), val.as_bytes().to_vec());
    }
    let ssts = vec![flush(&mem)];
    let empty = MemTable::new();
    assert_eq!(lookup(&empty, &ssts, b"key_0025"), Some(b"value_0025".to_vec()));
    assert!(lookup(&empty, &ssts, b"nonexistent").is_none());
}

#[test]
fn scan_merges_flushed_table_and_memtable() {
    let mut first = MemTable::new();
    for i in 0u32..50 {
        let key = format!("item/{:04}", i);
        let val = format!("v{}", i);
        first.insert(key.as_bytes(), val.as_bytes().to_vec());
    }
    let ssts = vec![flush(&first)];
    let mut mem = MemTable::new();
    mem.insert(b"item/0099", b"v99".to_vec());
    let results = merge_scan(b"item/", &mem, &ssts);
    assert_eq!(results.len(), 51);
    assert_eq!(results[50], (b"item/0099".to_vec(), b"v99".to_vec()));
    assert_eq!(results[0], (b"item/0000".to_vec(), b"v0".to_vec()));
}

#[test]
fn replayed_records_fill_a_memtable() {
    let t = Timestamp::new(9);
    let records = vec![
        WalRecord::new(b"a", b"1", None),
        WalRecord::new(b"b", b"2", None),
        WalRecord::new(b"", b"", Some(t)),
        WalRecord::new(b"a", b"3", Some(t)),
    ];
    let mut mem = MemTable::new();
    apply_records(&mut mem, &records).unwrap();
    assert_eq!(mem.get(b"a"), Some(b"3".as_slice()));
    assert_eq!(mem.get(b"b"), Some(b"2".as_slice()));
    assert!(mem.get(b"").is_none());
    assert_eq!(mem.iter().len(), 2);
}

#[test]
fn flush_threshold_counts_keys_and_values() {
    let mut mt = MemTable::new();
    mt.insert(b"ab", b"cde".to_vec());
    assert!(needs_flush(&mt, 5));
    assert!(!needs_flush(&mt, 6));
    assert!(needs_flush(&MemTable::new(), 0));
}

#[test]
fn memtable_sstable_bytes_read_back() {
    let mut mt = MemTable::new();
    mt.insert(b"b", b"2".to_vec());
    mt.insert(b"a", b"1".to_vec());
    let ts = Timestamp::new(7);
    let bytes = sstable_bytes(&mt, ts).unwrap();
    let reader = SSTableReader::open(bytes).unwrap();
    assert_eq!(reader.get(b"a"), Some(b"1".to_vec()));
    assert_eq!(reader.get(b"b"), Some(b"2".to_vec()));
    assert_eq!(reader.get(b"c"), None);
}

#[test]
fn series_of_inserts_keeps_last_value() {
    let mut mt = MemTable::new();
    assert_eq!(mt.get(b"a"), None);
    mt.insert(b"a", b"v1".to_vec());
    mt.insert(b"b", b"w".to_vec());
    mt.insert(b"a", b"v2".to_vec());
    assert_eq!(mt.get(b"a"), Some(&b"v2"[..]));
    assert_eq!(mt.get(b"b"), Some(&b"w"[..]));
    assert_eq!(mt.get(b"c"), None);
}
