use cdoc::bytes::prefix_successor;
use cdoc::sst::memtable::MemTable;

#[test]
fn insert_and_get() {
    let mut mt = MemTable::new();
    assert!(mt.get(b"a").is_none());
    mt.insert(b"a", b"v1".to_vec());
    assert_eq!(mt.get(b"a"), Some(b"v1".as_slice()));
}

#[test]
fn insert_overwrites_previous_value() {
    let mut mt = MemTable::new();
    mt.insert(b"a", b"v1".to_vec());
    let old = mt.insert(b"a", b"v2".to_vec());
    assert_eq!(old.as_deref(), Some(b"v1".as_slice()));
    assert_eq!(mt.get(b"a"), Some(b"v2".as_slice()));
}

#[test]
fn scan_prefix() {
    let mut mt = MemTable::new();
    mt.insert(b"abc/1", b"v1".to_vec());
    mt.insert(b"abc/2", b"v2".to_vec());
    mt.insert(b"abd/1", b"v3".to_vec());
    mt.insert(b"xyz", b"v4".to_vec());

    let results = mt.scan(b"abc/");
    assert_eq!(results.len(), 2);
    assert_eq!(results[0], (b"abc/1".as_slice(), b"v1".as_slice()));
    assert_eq!(results[1], (b"abc/2".as_slice(), b"v2".as_slice()));
}

#[test]
fn iter_sorted() {
    let mut mt = MemTable::new();
    mt.insert(b"c", b"3".to_vec());
    mt.insert(b"a", b"1".to_vec());
    mt.insert(b"b", b"2".to_vec());

    let keys: Vec<&[u8]> = mt.iter().into_iter().map(|(k, _)| k).collect();
    assert_eq!(keys, vec![b"a".as_slice(), b"b", b"c"]);
}

#[test]
fn estimated_size_tracks_bytes() {
    let mut mt = MemTable::new();
    assert_eq!(mt.estimated_size(), 0);
    mt.insert(b"key", b"val".to_vec()); // 3 + 3 = 6
    assert_eq!(mt.estimated_size(), 6);
    mt.insert(b"key", b"longer".to_vec()); // replace: size = 6 - 3 + 6 = 9
    assert_eq!(mt.estimated_size(), 9);
}

#[test]
fn scan_with_all_ff_prefix_reaches_the_end() {
    let mut mt = MemTable::new();
    mt.insert(&[0xff, 0xff, 1], b"a".to_vec());
    mt.insert(&[0xff, 0xff], b"b".to_vec());
    mt.insert(&[0xfe], b"c".to_vec());
    let results = mt.scan(&[0xff, 0xff]);
    assert_eq!(results, vec![(&[0xff, 0xff][..], &b"b"[..]), (&[0xff, 0xff, 1][..], &b"a"[..])]);
}

#[test]
fn scan_empty_prefix_returns_everything() {
    let mut mt = MemTable::new();
    mt.insert(b"b", b"2".to_vec());
    mt.insert(b"a", b"1".to_vec());
    assert_eq!(mt.scan(b"").len(), 2);
}

#[test]
fn fork_is_independent() {
    let mut mt = MemTable::new();
    mt.insert(b"a", b"1".to_vec());
    let mut copy = mt.fork();
    copy.insert(b"b", b"2".to_vec());
    assert!(mt.get(b"b").is_none());
    assert_eq!(copy.get(b"a"), Some(b"1".as_slice()));
    assert_eq!(copy.estimated_size(), 4);
}

#[test]
fn prefix_successor_cases() {
    assert_eq!(prefix_successor(b"ab"), Some(b"ac".to_vec()));
    assert_eq!(prefix_successor(&[b'a', 0xff]), Some(b"b".to_vec()));
    assert_eq!(prefix_successor(&[0xff, 0xff]), None);
    assert_eq!(prefix_successor(b""), None);
}
