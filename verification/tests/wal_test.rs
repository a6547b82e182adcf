use cdoc::hlc::Timestamp;
use cdoc::wal::{replay, WalRecord, WalState};

/// An in-memory log: the state and the bytes written so far.
struct Log {
    state: WalState,
    bytes: Vec<u8>,
}

impl Log {
    fn new() -> Log {
        Log { state: WalState::new(), bytes: Vec::new() }
    }

    fn write_record(&mut self, key: &[u8], value: &[u8], commit: Option<&Timestamp>) {
        let rec = self.state.encode_record(key, value, commit.copied());
        self.bytes.extend_from_slice(&rec);
    }

    fn truncate_to_last_commit(&mut self) {
        let pos = self.state.truncate_to_last_commit();
        self.bytes.truncate(pos as usize);
    }

    fn reset(&mut self) {
        self.state.reset();
        self.bytes.clear();
    }
}

#[test]
fn write_and_replay_single_transaction() {
    let timestamp = Timestamp::new(1_700_000_000_123);
    let mut wal = Log::new();
    wal.write_record(b"key1", b"val1", None);
    wal.write_record(b"key2", b"val2", Some(&timestamp));

    let records = replay(&wal.bytes);
    assert_eq!(
        records,
        vec![WalRecord::new(b"key1", b"val1", None), WalRecord::new(b"key2", b"val2", Some(timestamp)),]
    );
}

#[test]
fn uncommitted_entries_discarded_on_replay() {
    let timestamp = Timestamp::new(1_700_000_000_456);
    let mut wal = Log::new();
    wal.write_record(b"key1", b"val1", None);
    wal.write_record(&[], &[], Some(&timestamp));
    // second transaction never committed
    wal.write_record(b"key2", b"val2", None);

    let records = replay(&wal.bytes);
    assert_eq!(
        records,
        vec![WalRecord::new(b"key1", b"val1", None), WalRecord::new(b"", b"", Some(timestamp)),]
    );
}

#[test]
fn truncate_to_last_commit_discards_pending() {
    let timestamp = Timestamp::new(1_700_000_000_789);
    let mut wal = Log::new();
    wal.write_record(b"k1", b"v1", None);
    wal.write_record(&[], &[], Some(&timestamp));
    wal.write_record(b"k2", b"v2", None);
    wal.truncate_to_last_commit();

    let records = replay(&wal.bytes);
    assert_eq!(
        records,
        vec![WalRecord::new(b"k1", b"v1", None), WalRecord::new(b"", b"", Some(timestamp)),]
    );
}

#[test]
fn reset_clears_everything() {
    let mut wal = Log::new();
    wal.write_record(b"k1", b"v1", None);
    wal.write_record(&[], &[], Some(&Timestamp::new(42)));
    wal.reset();

    let records = replay(&wal.bytes);
    assert!(records.is_empty());
}

#[test]
fn damaged_record_stops_replay() {
    let t = Timestamp::new(7);
    let mut wal = Log::new();
    wal.write_record(b"a", b"1", Some(&t));
    let first_len = wal.bytes.len();
    wal.write_record(b"b", b"2", Some(&t));
    // flip a byte of the second record's value
    let n = wal.bytes.len();
    wal.bytes[n - 5] ^= 0xff;
    let records = replay(&wal.bytes);
    assert_eq!(records, vec![WalRecord::new(b"a", b"1", Some(t))]);
    assert!(first_len < n);
}

#[test]
fn record_layout() {
    let mut state = WalState::new();
    let rec = state.encode_record(b"k", b"vv", None);
    // key length, value length, key, value, crc
    assert_eq!(&rec[..7], &[1, 0, 2, 0, b'k', b'v', b'v'][..]);
    let mut h = crc32fast::Hasher::new();
    h.update(b"kvv");
    assert_eq!(&rec[7..], &h.finalize().to_le_bytes()[..]);
    let commit = state.encode_record(b"", b"", Some(Timestamp::new(1)));
    assert_eq!(&commit[..2], &[0, 0x80][..]);
}

#[test]
fn rolling_checksum_chains_records() {
    let mut state = WalState::new();
    let first = state.encode_record(b"a", b"", None);
    let second = state.encode_record(b"b", b"", None);
    let crc1 = u32::from_le_bytes([first[5], first[6], first[7], first[8]]);
    let mut h = crc32fast::Hasher::new_with_initial(crc1);
    h.update(b"b");
    assert_eq!(&second[5..], &h.finalize().to_le_bytes()[..]);
}

#[test]
fn commit_record_layout() {
    let mut state = WalState::new();
    let ts = Timestamp::new(0x0102_0304_0506_0708);
    let rec = state.encode_record(&[9], &[7, 8], Some(ts));
    // key length with the commit bit, value length, timestamp, key, value, crc
    assert_eq!(&rec[..4], &[1, 0x80, 2, 0][..]);
    assert_eq!(&rec[4..12], &[1, 2, 3, 4, 5, 6, 7, 8][..]);
    assert_eq!(&rec[12..15], &[9, 7, 8][..]);
    let mut h = crc32fast::Hasher::new();
    h.update(&[9, 7, 8]);
    assert_eq!(&rec[15..], &h.finalize().to_le_bytes()[..]);
}

#[test]
fn empty_key_with_value_replays() {
    let t = Timestamp::new(3);
    let mut wal = Log::new();
    wal.write_record(b"", b"value", None);
    wal.write_record(b"", b"", Some(&t));
    let records = replay(&wal.bytes);
    assert_eq!(records, vec![WalRecord::new(b"", b"value", None), WalRecord::new(b"", b"", Some(t))]);
}
