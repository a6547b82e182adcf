//! Write-ahead log records and their replay.
//!
//! Records come in two flavours, told apart by the top bit of the key length:
//! - update: `[key_len u16 LE][value_len u16 LE][key][value][crc u32 LE]`
//! - commit: `[key_len u16 LE, top bit set][value_len u16 LE][timestamp u64 BE][key][value][crc u32 LE]`
//!
//! The checksum rolls within a transaction: it starts at 0 and takes in the
//! key and value bytes of every record up to the commit.
use crate::bytes::{be_seq, be_value, lemma_be_seq_len, lemma_be_value_of_seq};
use crate::checksum::{crc32_continue, crc32_of};
use crate::hlc::Timestamp;
use crate::varint::lemma_pow256_16;
use vstd::prelude::*;

verus! {

/// Top bit of the key length: the record commits its transaction.
pub const COMMIT_BIT: u16 = 0x8000;

/// A record as plain values.
pub struct RecordView {
    pub key: Seq<u8>,
    pub value: Seq<u8>,
    pub timestamp: Option<u64>,
}

pub open spec fn le16(d: Seq<u8>, at: int) -> nat {
    d[at] as nat + 256 * (d[at + 1] as nat)
}

pub open spec fn le32(d: Seq<u8>, at: int) -> nat {
    d[at] as nat + 256 * (d[at + 1] as nat) + 65536 * (d[at + 2] as nat) + 16777216 * (d[at + 3] as nat)
}

pub open spec fn le16_bytes(x: nat) -> Seq<u8> {
    seq![(x % 256) as u8, ((x / 256) % 256) as u8]
}

pub open spec fn le32_bytes(x: nat) -> Seq<u8> {
    seq![(x % 256) as u8, ((x / 256) % 256) as u8, ((x / 65536) % 256) as u8, ((x / 16777216) % 256) as u8]
}

/// The timestamp bytes of a commit record, nothing for an update.
pub open spec fn ts_bytes(ts: Option<u64>) -> Seq<u8> {
    match ts {
        Some(t) => be_seq(t as nat, 8),
        None => Seq::empty(),
    }
}

/// The bytes a record adds to the rolling checksum: its key and value.
pub open spec fn crc_payload(key: Seq<u8>, value: Seq<u8>) -> Seq<u8> {
    key + value
}

/// The key-length word: the length as 16 bits, with the top bit set on a commit.
pub open spec fn header_word(key_len: nat, commit: bool) -> nat {
    let w = key_len % 65536;
    if commit && w < 32768 {
        w + 32768
    } else {
        w
    }
}

/// The bytes the writer appends for a record when the rolling checksum is `crc`.
pub open spec fn record_bytes(key: Seq<u8>, value: Seq<u8>, ts: Option<u64>, crc: u32) -> Seq<u8> {
    le16_bytes(header_word(key.len(), ts is Some)) + le16_bytes(value.len() % 65536) + ts_bytes(ts) + key
        + value + le32_bytes(crc32_of(crc, crc_payload(key, value)) as nat)
}

/// The rolling checksum after a record: back to 0 after a commit.
pub open spec fn next_crc(key: Seq<u8>, value: Seq<u8>, ts: Option<u64>, crc: u32) -> u32 {
    if ts is Some {
        0
    } else {
        crc32_of(crc, crc_payload(key, value))
    }
}

/// The record that starts at `pos` in `d` under rolling checksum `crc`, the
/// position after it and the checksum it carries; nothing when `d` ends
/// inside it or its checksum does not match.
#[verifier::opaque]
pub open spec fn decode_record(d: Seq<u8>, pos: int, crc: u32) -> Option<(RecordView, int, u32)> {
    if pos < 0 || pos + 4 > d.len() {
        None
    } else {
        let w = le16(d, pos);
        let commit = w >= 32768;
        let klen = w % 32768;
        let vlen = le16(d, pos + 2);
        let p1 = pos + 4;
        let p2 = if commit {
            p1 + 8
        } else {
            p1
        };
        let p3 = p2 + klen + vlen;
        if p3 + 4 > d.len() {
            None
        } else {
            let key = d.subrange(p2, p2 + klen);
            let value = d.subrange(p2 + klen, p3);
            let ts = if commit {
                Some(be_value(d.subrange(p1, p2)) as u64)
            } else {
                None
            };
            let computed = crc32_of(crc, key + value);
            if le32(d, p3) != computed {
                None
            } else {
                Some((RecordView { key, value, timestamp: ts }, p3 + 4, computed))
            }
        }
    }
}

/// Replay from `pos`: records read so far in `acc`, the first `committed` of
/// them belonging to committed transactions.
pub open spec fn replay_from(d: Seq<u8>, pos: int, crc: u32, acc: Seq<RecordView>, committed: nat) -> Seq<
    RecordView,
>
    decreases d.len() - pos,
{
    if pos < 0 || pos >= d.len() {
        acc.take(committed as int)
    } else {
        match decode_record(d, pos, crc) {
            None => acc.take(committed as int),
            Some((r, next, c)) => if next <= pos || next > d.len() {
                acc.take(committed as int)
            } else if r.timestamp is Some {
                replay_from(d, next, 0, acc.push(r), acc.len() + 1)
            } else {
                replay_from(d, next, c, acc.push(r), committed)
            },
        }
    }
}

/// The records of committed transactions in log bytes `d`, in order.
pub open spec fn replay_records(d: Seq<u8>) -> Seq<RecordView> {
    replay_from(d, 0, 0, Seq::empty(), 0)
}

/// A record that reads back as written: a key below 32768 bytes (the top bit
/// of its length marks commits) and a value below 65536 bytes.
pub open spec fn record_ok(r: RecordView) -> bool {
    &&& r.key.len() < 32768
    &&& r.value.len() < 65536
}

/// The bytes of `records` written one after another from rolling checksum `crc`.
pub open spec fn log_bytes(records: Seq<RecordView>, crc: u32) -> Seq<u8>
    decreases records.len(),
{
    if records.len() == 0 {
        Seq::empty()
    } else {
        let r = records[0];
        record_bytes(r.key, r.value, r.timestamp, crc) + log_bytes(
            records.drop_first(),
            next_crc(r.key, r.value, r.timestamp, crc),
        )
    }
}

/// How many of `records` belong to committed transactions: all up to and
/// including the last commit record.
pub open spec fn commit_count(records: Seq<RecordView>) -> nat
    decreases records.len(),
{
    if records.len() == 0 {
        0
    } else {
        let c = commit_count(records.drop_first());
        if c > 0 {
            c + 1
        } else if records[0].timestamp is Some {
            1
        } else {
            0
        }
    }
}

pub(crate) proof fn lemma_le16(x: nat)
    requires
        x < 65536,
    ensures
        le16(le16_bytes(x), 0) == x,
        le16_bytes(x).len() == 2,
{
    let y = x as u16;
    assert(((y % 256) as u8) as nat + 256 * ((((y / 256) % 256) as u8) as nat) == y as nat) by (bit_vector);
}

pub(crate) proof fn lemma_le32(x: nat)
    requires
        x < 0x1_0000_0000,
    ensures
        le32(le32_bytes(x), 0) == x,
        le32_bytes(x).len() == 4,
{
    let y = x as u32;
    assert(((y % 256) as u8) as nat + 256 * ((((y / 256) % 256) as u8) as nat) + 65536 * ((((y / 65536)
        % 256) as u8) as nat) + 16777216 * ((((y / 16777216) % 256) as u8) as nat) == y as nat) by (bit_vector);
}

pub(crate) proof fn lemma_le16_at(d: Seq<u8>, at: int, x: nat)
    requires
        x < 65536,
        0 <= at,
        at + 2 <= d.len(),
        d.subrange(at, at + 2) == le16_bytes(x),
    ensures
        le16(d, at) == x,
{
    lemma_le16(x);
    assert(d[at] == le16_bytes(x)[0]);
    assert(d[at + 1] == le16_bytes(x)[1]);
}

pub(crate) proof fn lemma_le32_at(d: Seq<u8>, at: int, x: nat)
    requires
        x < 0x1_0000_0000,
        0 <= at,
        at + 4 <= d.len(),
        d.subrange(at, at + 4) == le32_bytes(x),
    ensures
        le32(d, at) == x,
{
    lemma_le32(x);
    assert(d[at] == le32_bytes(x)[0]);
    assert(d[at + 1] == le32_bytes(x)[1]);
    assert(d[at + 2] == le32_bytes(x)[2]);
    assert(d[at + 3] == le32_bytes(x)[3]);
}

proof fn lemma_decode_fields(d: Seq<u8>, pos: int, crc: u32, key: Seq<u8>, value: Seq<u8>, ts: Option<u64>)
    requires
        0 <= pos,
        key.len() < 32768,
        value.len() < 65536,
        pos + 4 + ts_bytes(ts).len() + key.len() + value.len() + 4 <= d.len(),
        le16(d, pos) == header_word(key.len(), ts is Some),
        le16(d, pos + 2) == value.len(),
        d.subrange(pos + 4, pos + 4 + ts_bytes(ts).len()) == ts_bytes(ts),
        d.subrange(pos + 4 + ts_bytes(ts).len(), pos + 4 + ts_bytes(ts).len() + key.len()) == key,
        d.subrange(pos + 4 + ts_bytes(ts).len() + key.len(), pos + 4 + ts_bytes(ts).len() + key.len() + value.len())
            == value,
        le32(d, pos + 4 + ts_bytes(ts).len() + key.len() + value.len()) == crc32_of(crc, crc_payload(key, value)),
        ts matches Some(t) ==> be_value(ts_bytes(ts)) == t,
        ts is Some ==> ts_bytes(ts).len() == 8,
    ensures
        decode_record(d, pos, crc) == Some(
            (
                RecordView { key, value, timestamp: ts },
                pos + 4 + ts_bytes(ts).len() + key.len() + value.len() + 4,
                crc32_of(crc, crc_payload(key, value)),
            ),
        ),
{
    reveal(decode_record);
    if ts is None {
        assert(ts_bytes(ts).len() == 0);
    }
}

/// A record written after any bytes, and followed by any bytes, is read back
/// as written, with the checksum the writer carries on.
#[verifier::rlimit(60)]
pub proof fn lemma_decode_written_record(p: Seq<u8>, r: RecordView, crc: u32, rest: Seq<u8>)
    requires
        record_ok(r),
    ensures
        ({
            let b = record_bytes(r.key, r.value, r.timestamp, crc);
            decode_record(p + b + rest, p.len() as int, crc) == Some(
                (r, (p.len() + b.len()) as int, crc32_of(crc, crc_payload(r.key, r.value))),
            )
        }),
{
    let key = r.key;
    let value = r.value;
    let ts = r.timestamp;
    let commit = ts is Some;
    let b = record_bytes(key, value, ts, crc);
    let d = p + b + rest;
    let pos = p.len() as int;
    let w = header_word(key.len(), commit);
    let tb = ts_bytes(ts);
    let c = crc32_of(crc, crc_payload(key, value));
    lemma_pow256_16();
    if let Some(t) = ts {
        lemma_be_seq_len(t as nat, 8);
        lemma_be_value_of_seq(t as nat, 8);
    }
    lemma_le16(w);
    lemma_le16(value.len() % 65536);
    lemma_le32(c as nat);
    let h1 = le16_bytes(w);
    let h2 = le16_bytes(value.len() % 65536);
    let cb = le32_bytes(c as nat);
    let x1 = h1;
    let x2 = x1 + h2;
    let x3 = x2 + tb;
    let x4 = x3 + key;
    let x5 = x4 + value;
    assert(b == x5 + cb);
    let n = b.len() as int;
    // Each part of the record, found in the record.
    lemma_sub_right(x5, cb, 0, cb.len() as int);
    assert(cb.subrange(0, cb.len() as int) =~= cb);
    lemma_sub_left(x5, cb, 0, x5.len() as int);
    assert(x5.subrange(0, x5.len() as int) =~= x5);
    lemma_sub_right(x4, value, 0, value.len() as int);
    assert(value.subrange(0, value.len() as int) =~= value);
    lemma_sub_left(x4, value, 0, x4.len() as int);
    assert(x4.subrange(0, x4.len() as int) =~= x4);
    lemma_sub_right(x3, key, 0, key.len() as int);
    assert(key.subrange(0, key.len() as int) =~= key);
    lemma_sub_left(x3, key, 0, x3.len() as int);
    assert(x3.subrange(0, x3.len() as int) =~= x3);
    lemma_sub_right(x2, tb, 0, tb.len() as int);
    assert(tb.subrange(0, tb.len() as int) =~= tb);
    lemma_sub_left(x2, tb, 0, x2.len() as int);
    assert(x2.subrange(0, x2.len() as int) =~= x2);
    lemma_sub_right(x1, h2, 0, 2);
    assert(h2.subrange(0, 2) =~= h2);
    lemma_sub_left(x1, h2, 0, 2);
    assert(h1.subrange(0, 2) =~= h1);
    lemma_sub_nested(b, x5, 0, x5.len() as int, x4.len() as int);
    lemma_sub_nested(x5, x4, 0, x4.len() as int, x3.len() as int);
    lemma_sub_nested(x4, x3, 0, x3.len() as int, x2.len() as int);
    lemma_sub_nested(x3, x2, 0, x2.len() as int, 2);
    let k1: int = 4 + tb.len() as int;
    let k2: int = k1 + key.len();
    let k3: int = k2 + value.len();
    assert(b.subrange(0, 2) == h1) by {
        lemma_sub_within(b, x5, 0, 2);
        lemma_sub_within(x5, x4, 0, 2);
        lemma_sub_within(x4, x3, 0, 2);
        lemma_sub_within(x3, x2, 0, 2);
    }
    assert(b.subrange(2, 4) == h2) by {
        lemma_sub_within(b, x5, 2, 4);
        lemma_sub_within(x5, x4, 2, 4);
        lemma_sub_within(x4, x3, 2, 4);
        lemma_sub_within(x3, x2, 2, 4);
    }
    assert(b.subrange(4, k1) == tb) by {
        lemma_sub_within(b, x5, 4, k1);
        lemma_sub_within(x5, x4, 4, k1);
        lemma_sub_within(x4, x3, 4, k1);
    }
    assert(b.subrange(k1, k2) == key) by {
        lemma_sub_within(b, x5, k1, k2);
        lemma_sub_within(x5, x4, k1, k2);
    }
    assert(b.subrange(k2, k3) == value) by {
        lemma_sub_within(b, x5, k2, k3);
    }
    assert(b.subrange(k3, n) == cb);
    // The record's bytes, found in the log.
    assert(d == (p + b) + rest);
    lemma_in_log(p, b, rest, 0, 2);
    lemma_in_log(p, b, rest, 2, 4);
    lemma_in_log(p, b, rest, 4, k1);
    lemma_in_log(p, b, rest, k1, k2);
    lemma_in_log(p, b, rest, k2, k3);
    lemma_in_log(p, b, rest, k3, n);
    lemma_le16_at(d, pos, w);
    lemma_le16_at(d, pos + 2, value.len() % 65536);
    lemma_le32_at(d, pos + k3, c as nat);
    lemma_decode_fields(d, pos, crc, key, value, ts);
}

proof fn lemma_sub_left(x: Seq<u8>, y: Seq<u8>, a: int, b: int)
    requires
        0 <= a <= b <= x.len(),
    ensures
        (x + y).subrange(a, b) == x.subrange(a, b),
{
    assert((x + y).subrange(a, b) =~= x.subrange(a, b));
}

proof fn lemma_sub_right(x: Seq<u8>, y: Seq<u8>, a: int, b: int)
    requires
        0 <= a <= b <= y.len(),
    ensures
        (x + y).subrange(x.len() + a, x.len() + b) == y.subrange(a, b),
{
    assert((x + y).subrange(x.len() + a, x.len() + b) =~= y.subrange(a, b));
}

/// When `inner` is the front of `outer`, a range within `inner` reads the same in both.
proof fn lemma_sub_nested(outer: Seq<u8>, inner: Seq<u8>, z: int, len: int, upto: int)
    requires
        z == 0,
        0 <= upto <= len == inner.len() <= outer.len(),
        outer.subrange(0, len) == inner,
    ensures
        outer.subrange(0, upto) == inner.subrange(0, upto),
{
    assert(outer.subrange(0, upto) =~= inner.subrange(0, upto));
}

proof fn lemma_sub_within(outer: Seq<u8>, inner: Seq<u8>, a: int, b: int)
    requires
        0 <= a <= b <= inner.len() <= outer.len(),
        outer.subrange(0, inner.len() as int) == inner,
    ensures
        outer.subrange(a, b) == inner.subrange(a, b),
{
    assert(outer.subrange(a, b) =~= inner.subrange(a, b));
}

proof fn lemma_in_log(p: Seq<u8>, b: Seq<u8>, rest: Seq<u8>, i: int, j: int)
    requires
        0 <= i <= j <= b.len(),
    ensures
        ((p + b) + rest).subrange(p.len() + i, p.len() + j) == b.subrange(i, j),
{
    assert(((p + b) + rest).subrange(p.len() + i, p.len() + j) =~= b.subrange(i, j));
}

/// The outcome of replay once the records `rs` follow those already read.
pub open spec fn replay_outcome(acc: Seq<RecordView>, committed: nat, rs: Seq<RecordView>) -> Seq<RecordView> {
    if commit_count(rs) > 0 {
        (acc + rs).take((acc.len() + commit_count(rs)) as int)
    } else {
        acc.take(committed as int)
    }
}

#[verifier::rlimit(40)]
proof fn lemma_replay_log(p: Seq<u8>, rs: Seq<RecordView>, crc: u32, acc: Seq<RecordView>, committed: nat)
    requires
        forall|i: int| 0 <= i < rs.len() ==> record_ok(#[trigger] rs[i]),
        committed <= acc.len(),
    ensures
        replay_from(p + log_bytes(rs, crc), p.len() as int, crc, acc, committed) == replay_outcome(
            acc,
            committed,
            rs,
        ),
    decreases rs.len(),
{
    if rs.len() == 0 {
        assert(p + log_bytes(rs, crc) =~= p);
    } else {
        let r = rs[0];
        let b = record_bytes(r.key, r.value, r.timestamp, crc);
        let c2 = next_crc(r.key, r.value, r.timestamp, crc);
        let rest = log_bytes(rs.drop_first(), c2);
        let d = p + log_bytes(rs, crc);
        assert(d =~= p + b + rest);
        lemma_decode_written_record(p, r, crc, rest);
        assert(b.len() >= 8);
        assert forall|i: int| 0 <= i < rs.drop_first().len() implies record_ok(
            #[trigger] rs.drop_first()[i],
        ) by {
            assert(rs.drop_first()[i] == rs[i + 1]);
        }
        assert(p + b + rest =~= (p + b) + rest);
        let acc2 = acc.push(r);
        let rs2 = rs.drop_first();
        assert(acc2 + rs2 =~= acc + rs);
        assert(replay_from(d, p.len() as int, crc, acc, committed) == if r.timestamp is Some {
            replay_from(d, (p + b).len() as int, 0, acc2, acc.len() + 1)
        } else {
            replay_from(d, (p + b).len() as int, c2, acc2, committed)
        });
        if r.timestamp is Some {
            lemma_replay_log(p + b, rs2, 0, acc2, acc.len() + 1);
            if commit_count(rs2) == 0 {
                assert(acc2.take((acc.len() + 1) as int) =~= (acc + rs).take((acc.len() + 1) as int));
            }
        } else {
            lemma_replay_log(p + b, rs2, c2, acc2, committed);
            if commit_count(rs2) == 0 {
                assert(acc2.take(committed as int) =~= acc.take(committed as int));
            }
        }
    }
}

/// Replaying a log written record by record gives back the records of the
/// committed transactions, in order: everything after the last commit is
/// dropped.
pub proof fn lemma_replay_written_log(rs: Seq<RecordView>)
    requires
        forall|i: int| 0 <= i < rs.len() ==> record_ok(#[trigger] rs[i]),
    ensures
        replay_records(log_bytes(rs, 0)) == rs.take(commit_count(rs) as int),
{
    lemma_replay_log(Seq::empty(), rs, 0, Seq::empty(), 0);
    assert(Seq::<u8>::empty() + log_bytes(rs, 0) =~= log_bytes(rs, 0));
    assert(Seq::<RecordView>::empty() + rs =~= rs);
    if commit_count(rs) == 0 {
        assert(rs.take(0) =~= Seq::<RecordView>::empty().take(0));
    }
}

/// The log a writer holds replays to the records of its committed
/// transactions; after a truncation to the last commit, to all its records.
pub proof fn lemma_writer_log_replays(w: WalState)
    requires
        forall|i: int| 0 <= i < w.records().len() ==> record_ok(#[trigger] w.records()[i]),
    ensures
        replay_records(w.log()) == w.records().take(commit_count(w.records()) as int),
        commit_count(w.records()) == w.records().len() ==> replay_records(w.log()) == w.records(),
{
    lemma_replay_written_log(w.records());
    assert(w.records().take(w.records().len() as int) =~= w.records());
}

/// A log record, with the commit timestamp on the last record of a transaction.
#[derive(Debug, Clone, PartialEq, Eq)]
pub struct WalRecord {
    pub key: Vec<u8>,
    pub value: Vec<u8>,
    pub timestamp: Option<Timestamp>,
}

impl View for WalRecord {
    type V = RecordView;

    open spec fn view(&self) -> RecordView {
        RecordView {
            key: self.key@,
            value: self.value@,
            timestamp: match self.timestamp {
                Some(t) => Some(t@),
                None => None,
            },
        }
    }
}

pub open spec fn record_views(v: Seq<WalRecord>) -> Seq<RecordView> {
    v.map_values(|r: WalRecord| r@)
}

impl WalRecord {
    #[inline]
    pub fn new(key: &[u8], value: &[u8], timestamp: Option<Timestamp>) -> (r: WalRecord)
        ensures
            r.key@ == key@,
            r.value@ == value@,
            r.timestamp == timestamp,
    {
        WalRecord {
            key: vstd::slice::slice_to_vec(key),
            value: vstd::slice::slice_to_vec(value),
            timestamp,
        }
    }
}

pub(crate) fn push_le16(out: &mut Vec<u8>, x: u16)
    ensures
        final(out)@ == old(out)@ + le16_bytes(x as nat),
{
    out.push((x % 256) as u8);
    out.push(((x / 256) % 256) as u8);
    proof {
        assert(old(out)@.push((x % 256) as u8).push(((x / 256) % 256) as u8) =~= old(out)@ + le16_bytes(x as nat));
    }
}

pub(crate) fn push_le32(out: &mut Vec<u8>, x: u32)
    ensures
        final(out)@ == old(out)@ + le32_bytes(x as nat),
{
    out.push((x % 256) as u8);
    out.push(((x / 256) % 256) as u8);
    out.push(((x / 65536) % 256) as u8);
    out.push(((x / 16777216) % 256) as u8);
    proof {
        assert(old(out)@.push((x % 256) as u8).push(((x / 256) % 256) as u8).push(((x / 65536) % 256) as u8).push(((x / 16777216) % 256) as u8) =~= old(out)@ + le32_bytes(x as nat));
    }
}

/// The rolling checksum after `records` written from checksum `crc`.
pub open spec fn crc_after(records: Seq<RecordView>, crc: u32) -> u32
    decreases records.len(),
{
    if records.len() == 0 {
        crc
    } else {
        let r = records[0];
        crc_after(records.drop_first(), next_crc(r.key, r.value, r.timestamp, crc))
    }
}

/// One more record: its bytes follow those of the others.
#[verifier::spinoff_prover]
pub proof fn lemma_log_push(rs: Seq<RecordView>, r: RecordView, crc: u32)
    ensures
        log_bytes(rs.push(r), crc) == log_bytes(rs, crc) + record_bytes(r.key, r.value, r.timestamp, crc_after(rs, crc)),
        crc_after(rs.push(r), crc) == next_crc(r.key, r.value, r.timestamp, crc_after(rs, crc)),
    decreases rs.len(),
{
    let t = rs.push(r);
    if rs.len() == 0 {
        let rb = record_bytes(r.key, r.value, r.timestamp, crc);
        assert(t.drop_first() =~= Seq::<RecordView>::empty());
        assert(t[0] == r);
        assert(log_bytes(t, crc) == rb + log_bytes(Seq::<RecordView>::empty(), next_crc(r.key, r.value, r.timestamp, crc)));
        assert(rb + Seq::<u8>::empty() =~= rb);
        assert(Seq::<u8>::empty() + rb =~= rb);
        assert(crc_after(t, crc) == crc_after(Seq::<RecordView>::empty(), next_crc(r.key, r.value, r.timestamp, crc)));
    } else {
        let h = rs[0];
        let c2 = next_crc(h.key, h.value, h.timestamp, crc);
        let tail = rs.drop_first();
        assert(t.drop_first() =~= tail.push(r));
        assert(t[0] == h);
        lemma_log_push(tail, r, c2);
        let hb = record_bytes(h.key, h.value, h.timestamp, crc);
        let lt = log_bytes(tail, c2);
        let rb = record_bytes(r.key, r.value, r.timestamp, crc_after(tail, c2));
        assert(log_bytes(t, crc) == hb + log_bytes(tail.push(r), c2));
        assert(log_bytes(rs, crc) == hb + lt);
        assert(hb + (lt + rb) =~= (hb + lt) + rb);
        assert(crc_after(t, crc) == crc_after(tail.push(r), c2));
        assert(crc_after(rs, crc) == crc_after(tail, c2));
    }
}

/// Records laid after others: their bytes follow, from the checksum the
/// others leave.
pub proof fn lemma_log_concat(a: Seq<RecordView>, b: Seq<RecordView>, crc: u32)
    ensures
        log_bytes(a + b, crc) == log_bytes(a, crc) + log_bytes(b, crc_after(a, crc)),
    decreases a.len(),
{
    if a.len() == 0 {
        assert(a + b =~= b);
        assert(log_bytes(a, crc) + log_bytes(b, crc) =~= log_bytes(b, crc));
    } else {
        let h = a[0];
        let c2 = next_crc(h.key, h.value, h.timestamp, crc);
        assert((a + b).drop_first() =~= a.drop_first() + b);
        assert((a + b)[0] == h);
        lemma_log_concat(a.drop_first(), b, c2);
        assert(log_bytes(a + b, crc) =~= log_bytes(a, crc) + log_bytes(b, crc_after(a, crc)));
    }
}

/// A commit record closes a transaction: all records up to it are committed.
pub proof fn lemma_commit_count_push(rs: Seq<RecordView>, r: RecordView)
    ensures
        commit_count(rs.push(r)) == if r.timestamp is Some {
            rs.len() + 1
        } else {
            commit_count(rs)
        },
        commit_count(rs) <= rs.len(),
    decreases rs.len(),
{
    reveal_with_fuel(commit_count, 2);
    let t = rs.push(r);
    if rs.len() == 0 {
        assert(t.drop_first() =~= Seq::<RecordView>::empty());
        assert(t[0] == r);
    } else {
        assert(t.drop_first() =~= rs.drop_first().push(r));
        assert(t[0] == rs[0]);
        lemma_commit_count_push(rs.drop_first(), r);
    }
}

/// The committed records end with a commit, which resets the checksum.
proof fn lemma_committed_prefix(rs: Seq<RecordView>)
    ensures
        commit_count(rs) <= rs.len(),
        commit_count(rs.take(commit_count(rs) as int)) == commit_count(rs),
        crc_after(rs.take(commit_count(rs) as int), 0) == 0,
    decreases rs.len(),
{
    if rs.len() > 0 {
        let t = rs.drop_last();
        let r = rs.last();
        assert(rs =~= t.push(r));
        lemma_commit_count_push(t, r);
        lemma_committed_prefix(t);
        let cc = commit_count(rs);
        if r.timestamp is Some {
            assert(rs.take(cc as int) =~= t.push(r));
            lemma_log_push(t, r, 0);
        } else {
            assert(rs.take(cc as int) =~= t.take(cc as int));
        }
    } else {
        assert(rs.take(0) =~= rs);
    }
}

/// The writer's state between records: the rolling checksum, the position
/// after the last record and after the last commit.
pub struct WalState {
    rolling_crc: u32,
    pos: u64,
    last_commit_pos: u64,
    written: Ghost<Seq<RecordView>>,
}

impl WalState {
    /// The records the log holds, since it was created or last reset.
    pub closed spec fn records(&self) -> Seq<RecordView> {
        self.written@
    }

    /// The log's bytes: those of its records, one after another.
    pub open spec fn log(&self) -> Seq<u8> {
        log_bytes(self.records(), 0)
    }

    /// The checksum, position and last commit position are those of the records.
    #[verifier::type_invariant]
    spec fn inv(&self) -> bool {
        &&& self.pos == log_bytes(self.written@, 0).len()
        &&& self.rolling_crc == crc_after(self.written@, 0)
        &&& self.last_commit_pos == log_bytes(self.written@.take(commit_count(self.written@) as int), 0).len()
    }

    pub closed spec fn crc(&self) -> u32 {
        self.rolling_crc
    }

    pub closed spec fn pos(&self) -> nat {
        self.pos as nat
    }

    pub closed spec fn last_commit_pos(&self) -> nat {
        self.last_commit_pos as nat
    }

    /// The position after the last record.
    pub fn position(&self) -> (r: u64)
        ensures
            r == self.pos(),
            r == self.log().len(),
    {
        proof {
            use_type_invariant(self);
        }
        self.pos
    }

    /// The state of a new, empty log.
    pub fn new() -> (r: WalState)
        ensures
            r.records() == Seq::<RecordView>::empty(),
            r.crc() == 0,
            r.pos() == 0,
            r.last_commit_pos() == 0,
    {
        let r = WalState { rolling_crc: 0, pos: 0, last_commit_pos: 0, written: Ghost(Seq::empty()) };
        proof {
            assert(Seq::<RecordView>::empty().take(0) =~= Seq::<RecordView>::empty());
        }
        r
    }

    /// The bytes to append for a record of the current transaction; a
    /// timestamp makes it the commit record.
    pub fn encode_record(&mut self, key: &[u8], value: &[u8], commit: Option<Timestamp>) -> (r: Vec<u8>)
        requires
            old(self).pos() + key@.len() + value@.len() + 16 <= u64::MAX,
        ensures
            ({
                let ts = match commit {
                    Some(t) => Some(t@),
                    None => None,
                };
                &&& final(self).records() == old(self).records().push(RecordView { key: key@, value: value@, timestamp: ts })
                &&& final(self).log() == old(self).log() + r@
                &&& r@ == record_bytes(key@, value@, ts, old(self).crc())
                &&& final(self).crc() == next_crc(key@, value@, ts, old(self).crc())
                &&& final(self).pos() == old(self).pos() + r@.len()
                &&& final(self).last_commit_pos() == if commit is Some {
                    final(self).pos()
                } else {
                    old(self).last_commit_pos()
                }
            }),
    {
        proof {
            use_type_invariant(&*self);
        }
        let ghost ts = match commit {
            Some(t) => Some(t@),
            None => None::<u64>,
        };
        let klen: u16 = (key.len() % 65536) as u16;
        let word: u16 = match commit {
            Some(_) => klen | COMMIT_BIT,
            None => klen,
        };
        proof {
            assert(klen < 32768 ==> klen | 0x8000u16 == klen + 32768) by (bit_vector);
            assert(klen >= 32768 ==> klen | 0x8000u16 == klen) by (bit_vector);
        }
        let mut out: Vec<u8> = Vec::new();
        push_le16(&mut out, word);
        push_le16(&mut out, (value.len() % 65536) as u16);
        match commit {
            Some(t) => {
                let tb = t.to_bytes();
                out.extend_from_slice(tb.as_slice());
            },
            None => {},
        }
        out.extend_from_slice(key);
        out.extend_from_slice(value);
        let mut payload: Vec<u8> = vstd::slice::slice_to_vec(key);
        payload.extend_from_slice(value);
        proof {
            lemma_pow256_16();
            if let Some(t) = commit {
                lemma_be_seq_len(t@ as nat, 8);
            }
            assert(payload@ =~= crc_payload(key@, value@));
        }
        let crc = crc32_continue(self.rolling_crc, payload.as_slice());
        push_le32(&mut out, crc);
        proof {
            assert(out@ =~= record_bytes(key@, value@, ts, old(self).crc()));
            assert(out@.len() <= key@.len() + value@.len() + 16);
        }
        let pos = self.pos + out.len() as u64;
        let (rolling_crc, last_commit_pos) = match commit {
            Some(_) => (0, pos),
            None => (crc, self.last_commit_pos),
        };
        let ghost old_records = self.written@;
        let ghost rec = RecordView { key: key@, value: value@, timestamp: ts };
        proof {
            lemma_log_push(old_records, rec, 0);
            lemma_commit_count_push(old_records, rec);
            let cc = commit_count(old_records);
            if commit is None {
                assert(old_records.push(rec).take(cc as int) =~= old_records.take(cc as int));
            } else {
                assert(old_records.push(rec).take((old_records.len() + 1) as int) =~= old_records.push(rec));
            }
        }
        *self = WalState { rolling_crc, pos, last_commit_pos, written: Ghost(old_records.push(rec)) };
        out
    }

    /// Drops the current transaction: returns the position to cut the log
    /// back to, right after the last commit.
    pub fn truncate_to_last_commit(&mut self) -> (r: u64)
        ensures
            final(self).records() == old(self).records().take(commit_count(old(self).records()) as int),
            commit_count(final(self).records()) == final(self).records().len(),
            final(self).log() == old(self).log().take(r as int),
            r == old(self).last_commit_pos(),
            final(self).pos() == old(self).last_commit_pos(),
            final(self).last_commit_pos() == old(self).last_commit_pos(),
            final(self).crc() == 0,
    {
        proof {
            use_type_invariant(&*self);
        }
        let ghost rs = self.written@;
        proof {
            let cc = commit_count(rs);
            lemma_committed_prefix(rs);
            assert(rs =~= rs.take(cc as int) + rs.skip(cc as int));
            lemma_log_concat(rs.take(cc as int), rs.skip(cc as int), 0);
            let a = log_bytes(rs.take(cc as int), 0);
            assert(log_bytes(rs, 0).take(a.len() as int) =~= a);
        }
        proof {
            let k = rs.take(commit_count(rs) as int);
            assert(k.take(commit_count(k) as int) =~= k);
        }
        let cut = self.last_commit_pos;
        *self = WalState { rolling_crc: 0, pos: cut, last_commit_pos: cut, written: Ghost(rs.take(commit_count(rs) as int)) };
        cut
    }

    /// Back to an empty log.
    pub fn reset(&mut self)
        ensures
            final(self).records() == Seq::<RecordView>::empty(),
            final(self).crc() == 0,
            final(self).pos() == 0,
            final(self).last_commit_pos() == 0,
    {
        proof {
            assert(Seq::<RecordView>::empty().take(0) =~= Seq::<RecordView>::empty());
        }
        *self = WalState { rolling_crc: 0, pos: 0, last_commit_pos: 0, written: Ghost(Seq::empty()) };
    }
}

pub(crate) fn read_le16(d: &[u8], at: usize) -> (r: usize)
    requires
        at + 2 <= d@.len(),
    ensures
        r == le16(d@, at as int),
{
    d[at] as usize + 256 * (d[at + 1] as usize)
}

pub(crate) fn read_le32(d: &[u8], at: usize) -> (r: u32)
    requires
        at + 4 <= d@.len(),
    ensures
        r as nat == le32(d@, at as int),
{
    d[at] as u32 + 256 * (d[at + 1] as u32) + 65536 * (d[at + 2] as u32) + 16777216 * (d[at + 3] as u32)
}

/// Reads the record at `pos` under rolling checksum `crc`.
pub fn decode_at(d: &[u8], pos: usize, crc: u32) -> (r: Option<(WalRecord, usize, u32)>)
    ensures
        match r {
            Some((rec, next, c)) => decode_record(d@, pos as int, crc) == Some((rec@, next as int, c)),
            None => decode_record(d@, pos as int, crc) is None,
        },
{
    proof {
        reveal(decode_record);
    }
    if pos > d.len() || d.len() - pos < 4 {
        return None;
    }
    let w = read_le16(d, pos);
    let commit = w >= 32768;
    let klen = w % 32768;
    let vlen = read_le16(d, pos + 2);
    let p1 = pos + 4;
    let extra: usize = if commit {
        8
    } else {
        0
    };
    if extra + klen + vlen + 4 > d.len() - p1 {
        return None;
    }
    let p2 = p1 + extra;
    let p3 = p2 + klen + vlen;
    let tsb = &d[p1..p2];
    let key: &[u8] = &d[p2..p2 + klen];
    let value: &[u8] = &d[p2 + klen..p3];
    let ts = if commit {
        let t = Timestamp::from_bytes(tsb);
        proof {
            assert(t is Some);
        }
        t
    } else {
        None
    };
    let mut payload: Vec<u8> = vstd::slice::slice_to_vec(key);
    payload.extend_from_slice(value);
    let computed = crc32_continue(crc, payload.as_slice());
    let stored = read_le32(d, p3);
    proof {
        assert(payload@ =~= key@ + value@);
    }
    if stored != computed {
        return None;
    }
    let rec = WalRecord::new(key, value, ts);
    Some((rec, p3 + 4, computed))
}

/// The records of committed transactions in log bytes `d`, in order:
/// reading stops at the first damaged or incomplete record, and records
/// after the last commit are dropped.
pub fn replay(d: &[u8]) -> (r: Vec<WalRecord>)
    ensures
        record_views(r@) == replay_records(d@),
{
    let mut records: Vec<WalRecord> = Vec::new();
    let mut pos: usize = 0;
    let mut crc: u32 = 0;
    let mut committed: usize = 0;
    proof {
        assert(record_views(records@) =~= Seq::<RecordView>::empty());
    }
    while pos < d.len()
        invariant_except_break
            replay_records(d@) == replay_from(d@, pos as int, crc, record_views(records@), committed as nat),
        invariant
            committed <= records.len(),
            pos <= d.len(),
        ensures
            replay_records(d@) == record_views(records@).take(committed as int),
            committed <= records.len(),
        decreases d.len() - pos,
    {
        match decode_at(d, pos, crc) {
            None => break,
            Some((rec, next, c)) => {
                if next <= pos || next > d.len() {
                    break;
                }
                let is_commit = rec.timestamp.is_some();
                let ghost before = records@;
                records.push(rec);
                proof {
                    assert(record_views(records@) =~= record_views(before).push(rec@));
                }
                pos = next;
                if is_commit {
                    crc = 0;
                    committed = records.len();
                } else {
                    crc = c;
                }
            },
        }
    }
    let ghost full = records@;
    records.truncate(committed);
    proof {
        assert(record_views(records@) =~= record_views(full).take(committed as int));
    }
    records
}

} // verus!
