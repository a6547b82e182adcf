//! The SSTable file format: blocks of prefix-compressed entries, each closed
//! by its CRC32, then the block index, the bloom filter and a fixed footer.
use crate::bytes::{be_seq, be_value, lemma_be_seq_len, lemma_be_value_of_seq};
use crate::checksum::{crc32_continue, crc32_of};
use crate::hlc::Timestamp;
use crate::varint::lemma_pow256_16;
use crate::sst::memtable::EntryView;
use crate::wal::{
    lemma_le16, lemma_le16_at, lemma_le32, lemma_le32_at, le16, le16_bytes, le32, le32_bytes, push_le32,
    read_le32,
};
use vstd::prelude::*;

verus! {

/// Target size of a block's entries before a new block is started.
pub const BLOCK_SIZE: usize = 65536;

/// Entries between prefix-compression resets within a block.
pub const PREFIX_RESET_INTERVAL: usize = 16;

/// Number of hash functions of the bloom filter.
pub const BLOOM_HASH_COUNT: u32 = 7;

/// Bytes of the footer at the end of every file.
pub const FOOTER_SIZE: usize = 48;

/// The format version written to the footer.
pub const SST_VERSION: u32 = 1;

/// Seeds the second hash of the bloom filter.
pub const BLOOM_SEED: u32 = 0x9e37_79b9;

pub open spec fn le64(d: Seq<u8>, at: int) -> nat {
    le32(d, at) + 0x1_0000_0000 * le32(d, at + 4)
}

pub open spec fn le64_bytes(x: nat) -> Seq<u8> {
    le32_bytes(x % 0x1_0000_0000) + le32_bytes(x / 0x1_0000_0000)
}

pub proof fn lemma_le64(x: nat)
    requires
        x < 0x1_0000_0000_0000_0000,
    ensures
        le64(le64_bytes(x), 0) == x,
        le64_bytes(x).len() == 8,
{
    let lo = x % 0x1_0000_0000;
    let hi = x / 0x1_0000_0000;
    lemma_le32(lo);
    lemma_le32(hi);
    let b = le64_bytes(x);
    assert(b.subrange(0, 4) =~= le32_bytes(lo));
    assert(b.subrange(4, 8) =~= le32_bytes(hi));
    lemma_le32_at(b, 0, lo);
    lemma_le32_at(b, 4, hi);
}

pub proof fn lemma_le64_at(d: Seq<u8>, at: int, x: nat)
    requires
        x < 0x1_0000_0000_0000_0000,
        0 <= at,
        at + 8 <= d.len(),
        d.subrange(at, at + 8) == le64_bytes(x),
    ensures
        le64(d, at) == x,
{
    let lo = x % 0x1_0000_0000;
    let hi = x / 0x1_0000_0000;
    lemma_le32(lo);
    lemma_le32(hi);
    assert(d.subrange(at, at + 4) =~= d.subrange(at, at + 8).subrange(0, 4));
    assert(d.subrange(at + 4, at + 8) =~= d.subrange(at, at + 8).subrange(4, 8));
    assert(le64_bytes(x).subrange(0, 4) =~= le32_bytes(lo));
    assert(le64_bytes(x).subrange(4, 8) =~= le32_bytes(hi));
    lemma_le32_at(d, at, lo);
    lemma_le32_at(d, at + 4, hi);
}

pub(crate) fn push_le64(out: &mut Vec<u8>, x: u64)
    ensures
        final(out)@ == old(out)@ + le64_bytes(x as nat),
{
    let lo = (x % 0x1_0000_0000) as u32;
    let hi = (x / 0x1_0000_0000) as u32;
    push_le32(out, lo);
    push_le32(out, hi);
    proof {
        assert(final(out)@ =~= old(out)@ + le64_bytes(x as nat));
    }
}

pub(crate) fn read_le64(d: &[u8], at: usize) -> (r: u64)
    requires
        at + 8 <= d.len(),
    ensures
        r as nat == le64(d@, at as int),
{
    let lo = read_le32(d, at);
    let hi = read_le32(d, at + 4);
    lo as u64 + 0x1_0000_0000 * (hi as u64)
}

/// The fixed-size footer at the end of every SSTable file.
#[derive(Debug, Clone, Copy, PartialEq, Eq)]
pub struct SSTableFooter {
    /// Where the block index starts.
    pub index_offset: u64,
    /// Where the bloom filter starts.
    pub bloom_offset: u64,
    /// The lowest timestamp in the file.
    pub min_timestamp: Timestamp,
    /// The highest timestamp in the file.
    pub max_timestamp: Timestamp,
    /// The number of entries in the file.
    pub entry_count: u64,
    /// The format version.
    pub version: u32,
    /// CRC32 of every byte before the footer.
    pub checksum: u32,
}

/// The footer's bytes: little-endian numbers, big-endian timestamps.
pub open spec fn footer_bytes(f: SSTableFooter) -> Seq<u8> {
    le64_bytes(f.index_offset as nat) + le64_bytes(f.bloom_offset as nat) + be_seq(
        f.min_timestamp@ as nat,
        8,
    ) + be_seq(f.max_timestamp@ as nat, 8) + le64_bytes(f.entry_count as nat) + le32_bytes(
        f.version as nat,
    ) + le32_bytes(f.checksum as nat)
}

/// What the footer says when read from the 48 bytes at `at`.
pub open spec fn footer_fields(d: Seq<u8>, at: int) -> (nat, nat, nat, nat, nat, nat, nat) {
    (
        le64(d, at),
        le64(d, at + 8),
        be_value(d.subrange(at + 16, at + 24)),
        be_value(d.subrange(at + 24, at + 32)),
        le64(d, at + 32),
        le32(d, at + 40),
        le32(d, at + 44),
    )
}

pub open spec fn footer_view(f: SSTableFooter) -> (nat, nat, nat, nat, nat, nat, nat) {
    (
        f.index_offset as nat,
        f.bloom_offset as nat,
        f.min_timestamp@ as nat,
        f.max_timestamp@ as nat,
        f.entry_count as nat,
        f.version as nat,
        f.checksum as nat,
    )
}

/// The `n` bytes at `k` of `b`, found at `pre.len() + k` of `pre + b`.
proof fn lemma_sub_after(pre: Seq<u8>, b: Seq<u8>, k: int, n: int)
    requires
        0 <= k,
        0 <= n,
        k + n <= b.len(),
    ensures
        (pre + b).subrange(pre.len() + k, pre.len() + k + n) == b.subrange(k, k + n),
{
    assert((pre + b).subrange(pre.len() + k, pre.len() + k + n) =~= b.subrange(k, k + n));
}

/// The footer's bytes, field by field.
#[verifier::rlimit(40)]
proof fn lemma_footer_parts(f: SSTableFooter)
    ensures
        footer_bytes(f).len() == FOOTER_SIZE,
        footer_bytes(f).subrange(0, 8) == le64_bytes(f.index_offset as nat),
        footer_bytes(f).subrange(8, 16) == le64_bytes(f.bloom_offset as nat),
        footer_bytes(f).subrange(16, 24) == be_seq(f.min_timestamp@ as nat, 8),
        footer_bytes(f).subrange(24, 32) == be_seq(f.max_timestamp@ as nat, 8),
        footer_bytes(f).subrange(32, 40) == le64_bytes(f.entry_count as nat),
        footer_bytes(f).subrange(40, 44) == le32_bytes(f.version as nat),
        footer_bytes(f).subrange(44, 48) == le32_bytes(f.checksum as nat),
{
    let p0 = le64_bytes(f.index_offset as nat);
    let p1 = le64_bytes(f.bloom_offset as nat);
    let p2 = be_seq(f.min_timestamp@ as nat, 8);
    let p3 = be_seq(f.max_timestamp@ as nat, 8);
    let p4 = le64_bytes(f.entry_count as nat);
    let p5 = le32_bytes(f.version as nat);
    let p6 = le32_bytes(f.checksum as nat);
    let b = footer_bytes(f);
    lemma_le64(f.index_offset as nat);
    lemma_le64(f.bloom_offset as nat);
    lemma_le64(f.entry_count as nat);
    lemma_le32(f.version as nat);
    lemma_le32(f.checksum as nat);
    lemma_be_seq_len(f.min_timestamp@ as nat, 8);
    lemma_be_seq_len(f.max_timestamp@ as nat, 8);
    assert(b.subrange(0, 8) =~= p0);
    assert(b.subrange(8, 16) =~= p1);
    assert(b.subrange(16, 24) =~= p2);
    assert(b.subrange(24, 32) =~= p3);
    assert(b.subrange(32, 40) =~= p4);
    assert(b.subrange(40, 44) =~= p5);
    assert(b.subrange(44, 48) =~= p6);
}

/// A footer reads back as the footer written.
pub proof fn lemma_footer_roundtrip(f: SSTableFooter, pre: Seq<u8>)
    ensures
        footer_bytes(f).len() == FOOTER_SIZE,
        footer_fields(pre + footer_bytes(f), pre.len() as int) == footer_view(f),
{
    let b = footer_bytes(f);
    lemma_footer_parts(f);
    let d = pre + b;
    let at = pre.len() as int;
    lemma_sub_after(pre, b, 0, 8);
    lemma_sub_after(pre, b, 8, 8);
    lemma_sub_after(pre, b, 16, 8);
    lemma_sub_after(pre, b, 24, 8);
    lemma_sub_after(pre, b, 32, 8);
    lemma_sub_after(pre, b, 40, 4);
    lemma_sub_after(pre, b, 44, 4);
    lemma_le64_at(d, at, f.index_offset as nat);
    lemma_le64_at(d, at + 8, f.bloom_offset as nat);
    lemma_le64_at(d, at + 32, f.entry_count as nat);
    lemma_le32_at(d, at + 40, f.version as nat);
    lemma_le32_at(d, at + 44, f.checksum as nat);
    lemma_pow256_16();
    lemma_be_value_of_seq(f.min_timestamp@ as nat, 8);
    lemma_be_value_of_seq(f.max_timestamp@ as nat, 8);
}

impl SSTableFooter {
    /// The footer's 48 bytes.
    pub fn to_bytes(&self) -> (r: Vec<u8>)
        ensures
            r@ == footer_bytes(*self),
    {
        let mut out: Vec<u8> = Vec::new();
        push_le64(&mut out, self.index_offset);
        push_le64(&mut out, self.bloom_offset);
        let a = self.min_timestamp.to_bytes();
        out.extend_from_slice(a.as_slice());
        let b = self.max_timestamp.to_bytes();
        out.extend_from_slice(b.as_slice());
        push_le64(&mut out, self.entry_count);
        push_le32(&mut out, self.version);
        push_le32(&mut out, self.checksum);
        proof {
            assert(out@ =~= footer_bytes(*self));
        }
        out
    }

    /// Reads the footer from the 48 bytes at `at`.
    pub fn read_at(d: &[u8], at: usize) -> (r: SSTableFooter)
        requires
            at + FOOTER_SIZE <= d.len(),
        ensures
            footer_view(r) == footer_fields(d@, at as int),
    {
        let index_offset = read_le64(d, at);
        let bloom_offset = read_le64(d, at + 8);
        let min_slice = vstd::slice::slice_subrange(d, at + 16, at + 24);
        let max_slice = vstd::slice::slice_subrange(d, at + 24, at + 32);
        let min_timestamp = Timestamp::from_bytes(min_slice).unwrap();
        let max_timestamp = Timestamp::from_bytes(max_slice).unwrap();
        let entry_count = read_le64(d, at + 32);
        let version = read_le32(d, at + 40);
        let checksum = read_le32(d, at + 44);
        SSTableFooter {
            index_offset,
            bloom_offset,
            min_timestamp,
            max_timestamp,
            entry_count,
            version,
            checksum,
        }
    }

    /// Size of the bloom filter in bytes for the footer's number of entries,
    /// as the writer lays it out.
    pub fn bloom_len(&self) -> (r: usize)
        requires
            self.entry_count * 10 + 7 <= usize::MAX,
        ensures
            r == bloom_size(self.entry_count as nat),
    {
        if self.entry_count == 0 {
            1
        } else {
            ((self.entry_count as usize) * 10 + 7) / 8
        }
    }
}

/// The double hash of the bloom filter: the CRC32 of the key plus `i` times
/// its CRC32 from a second seed, modulo 2^64.
pub open spec fn bloom_hash_spec(key: Seq<u8>, i: u32) -> u64 {
    vstd::wrapping::u64_specs::wrapping_add(
        crc32_of(0, key) as u64,
        vstd::wrapping::u64_specs::wrapping_mul(i as u64, crc32_of(BLOOM_SEED, key) as u64),
    )
}

pub fn bloom_hash(key: &[u8], i: u32) -> (r: u64)
    ensures
        r == bloom_hash_spec(key@, i),
{
    let h1 = crc32_continue(0, key) as u64;
    let h2 = crc32_continue(BLOOM_SEED, key) as u64;
    h1.wrapping_add((i as u64).wrapping_mul(h2))
}

/// The length of the longest common prefix of `a` and `b`.
pub open spec fn common_prefix(a: Seq<u8>, b: Seq<u8>) -> nat
    decreases a.len(),
{
    if a.len() == 0 || b.len() == 0 || a[0] != b[0] {
        0
    } else {
        1 + common_prefix(a.drop_first(), b.drop_first())
    }
}

pub proof fn lemma_common_prefix(a: Seq<u8>, b: Seq<u8>)
    ensures
        common_prefix(a, b) <= a.len(),
        common_prefix(a, b) <= b.len(),
        a.subrange(0, common_prefix(a, b) as int) == b.subrange(0, common_prefix(a, b) as int),
        common_prefix(a, b) < a.len() && common_prefix(a, b) < b.len() ==> a[common_prefix(a, b) as int]
            != b[common_prefix(a, b) as int],
    decreases a.len(),
{
    if a.len() == 0 || b.len() == 0 || a[0] != b[0] {
        assert(a.subrange(0, 0) =~= b.subrange(0, 0));
    } else {
        lemma_common_prefix(a.drop_first(), b.drop_first());
        let n = common_prefix(a, b) as int;
        assert(a.subrange(0, n) =~= seq![a[0]] + a.drop_first().subrange(0, n - 1));
        assert(b.subrange(0, n) =~= seq![b[0]] + b.drop_first().subrange(0, n - 1));
    }
}

/// The length of the common prefix of two byte strings.
pub fn common_prefix_len(a: &[u8], b: &[u8]) -> (r: usize)
    ensures
        r == common_prefix(a@, b@),
{
    let mut i: usize = 0;
    proof {
        assert(a@.subrange(0, a@.len() as int) =~= a@);
        assert(b@.subrange(0, b@.len() as int) =~= b@);
    }
    while i < a.len() && i < b.len() && a[i] == b[i]
        invariant
            i <= a.len(),
            i <= b.len(),
            common_prefix(a@, b@) == i + common_prefix(
                a@.subrange(i as int, a@.len() as int),
                b@.subrange(i as int, b@.len() as int),
            ),
        decreases a.len() - i,
    {
        proof {
            let x = a@.subrange(i as int, a@.len() as int);
            let y = b@.subrange(i as int, b@.len() as int);
            assert(x.drop_first() =~= a@.subrange(i + 1, a@.len() as int));
            assert(y.drop_first() =~= b@.subrange(i + 1, b@.len() as int));
        }
        i = i + 1;
    }
    i
}

/// How many leading bytes an entry takes from the previous key of its
/// block: none at a reset point, else their common prefix, kept to 16 bits.
pub open spec fn shared_len(prev: Seq<u8>, key: Seq<u8>, reset: bool) -> nat {
    if reset {
        0
    } else {
        common_prefix(prev, key) % 65536
    }
}

/// An entry in a block: the shared length, the suffix length and the value
/// length as 16-bit words, then the key's suffix and the value.
pub open spec fn entry_bytes(prev: Seq<u8>, reset: bool, key: Seq<u8>, value: Seq<u8>) -> Seq<u8> {
    let sh = shared_len(prev, key, reset);
    le16_bytes(sh) + le16_bytes(((key.len() - sh) as nat) % 65536) + le16_bytes(value.len() % 65536)
        + key.subrange(sh as int, key.len() as int) + value
}

/// Whether the entry at position `n` of a block starts a new run of prefix
/// compression.
pub open spec fn is_reset(n: int) -> bool {
    n % (PREFIX_RESET_INTERVAL as int) == 0
}

/// The key before position `n` of a block; nothing at the start.
pub open spec fn prev_key(s: Seq<EntryView>, n: int) -> Seq<u8> {
    if n > 0 {
        s[n - 1].0
    } else {
        Seq::empty()
    }
}

/// The entries of a block, prefix-compressed.
pub open spec fn block_data(s: Seq<EntryView>) -> Seq<u8>
    decreases s.len(),
{
    if s.len() == 0 {
        Seq::empty()
    } else {
        let n = s.len() - 1;
        block_data(s.drop_last()) + entry_bytes(prev_key(s, n), is_reset(n), s[n].0, s[n].1)
    }
}

/// A block as written: its entries, then their CRC32.
pub open spec fn block_bytes(s: Seq<EntryView>) -> Seq<u8> {
    block_data(s) + le32_bytes(crc32_of(0, block_data(s)) as nat)
}

/// The entries read from block data `d`, starting at `pos`, after `count`
/// entries whose last key was `prev`. Reading stops at the first entry that
/// does not fit.
pub open spec fn decode_entries(d: Seq<u8>, pos: int, prev: Seq<u8>, count: nat) -> Seq<EntryView>
    decreases d.len() - pos,
{
    if pos < 0 || pos + 6 > d.len() {
        Seq::empty()
    } else {
        let sh = le16(d, pos);
        let sl = le16(d, pos + 2);
        let vl = le16(d, pos + 4);
        let p = pos + 6;
        if p + sl + vl > d.len() {
            Seq::empty()
        } else {
            let base = if is_reset(count as int) {
                Seq::empty()
            } else {
                prev
            };
            let keep = if sh <= base.len() {
                sh
            } else {
                base.len()
            };
            let key = base.subrange(0, keep as int) + d.subrange(p, p + sl);
            let value = d.subrange(p + sl, p + sl + vl);
            seq![(key, value)] + decode_entries(d, p + sl + vl, key, count + 1)
        }
    }
}

/// Keys and values short enough for their 16-bit length words.
pub open spec fn short_entries(s: Seq<EntryView>) -> bool {
    forall|i: int| 0 <= i < s.len() ==> (#[trigger] s[i]).0.len() < 65536 && s[i].1.len() < 65536
}

proof fn lemma_block_data_prefix(s: Seq<EntryView>, j: int)
    requires
        0 <= j <= s.len(),
    ensures
        block_data(s.take(j)).len() <= block_data(s).len(),
        block_data(s).subrange(0, block_data(s.take(j)).len() as int) == block_data(s.take(j)),
    decreases s.len() - j,
{
    if j == s.len() {
        assert(s.take(j) =~= s);
    } else {
        lemma_block_data_prefix(s, j + 1);
        let t = s.take(j + 1);
        assert(t.drop_last() =~= s.take(j));
        let a = block_data(s.take(j));
        let b = block_data(t);
        let full = block_data(s);
        assert(b.subrange(0, a.len() as int) =~= a);
        assert(full.subrange(0, a.len() as int) =~= full.subrange(0, b.len() as int).subrange(0, a.len() as int));
    }
}

/// One entry reads back as written.
#[verifier::rlimit(90)]
proof fn lemma_decode_one(d: Seq<u8>, pos: int, prev: Seq<u8>, count: nat, key: Seq<u8>, value: Seq<u8>)
    requires
        0 <= pos,
        key.len() < 65536,
        value.len() < 65536,
        pos + entry_bytes(prev, is_reset(count as int), key, value).len() <= d.len(),
        d.subrange(pos, pos + entry_bytes(prev, is_reset(count as int), key, value).len())
            == entry_bytes(prev, is_reset(count as int), key, value),
    ensures
        decode_entries(d, pos, prev, count) == seq![(key, value)] + decode_entries(
            d,
            pos + entry_bytes(prev, is_reset(count as int), key, value).len(),
            key,
            count + 1,
        ),
{
    let reset = is_reset(count as int);
    let e = entry_bytes(prev, reset, key, value);
    lemma_common_prefix(prev, key);
    let sh = shared_len(prev, key, reset);
    assert(sh <= key.len());
    let sl = (key.len() - sh) as nat;
    let sli = sl as int;
    lemma_le16(sh);
    lemma_le16(sl);
    lemma_le16(value.len());
    assert(e.len() == 6 + sl + value.len());
    assert(d.subrange(pos, pos + 2) =~= e.subrange(0, 2));
    assert(e.subrange(0, 2) =~= le16_bytes(sh));
    assert(d.subrange(pos + 2, pos + 4) =~= e.subrange(2, 4));
    assert(e.subrange(2, 4) =~= le16_bytes(sl % 65536));
    assert(d.subrange(pos + 4, pos + 6) =~= e.subrange(4, 6));
    assert(e.subrange(4, 6) =~= le16_bytes(value.len() % 65536));
    lemma_le16_at(d, pos, sh);
    lemma_le16_at(d, pos + 2, sl);
    lemma_le16_at(d, pos + 4, value.len());
    let p = pos + 6;
    assert(d.subrange(p, p + sli) =~= e.subrange(6, 6 + sli));
    assert(e.subrange(6, 6 + sli) =~= key.subrange(sh as int, key.len() as int));
    assert(d.subrange(p + sli, p + sli + value.len()) =~= e.subrange(6 + sli, e.len() as int));
    assert(e.subrange(6 + sli, e.len() as int) =~= value);
    let base = if reset {
        Seq::<u8>::empty()
    } else {
        prev
    };
    assert(sh <= base.len());
    assert(base.subrange(0, sh as int) == key.subrange(0, sh as int));
    assert(base.subrange(0, sh as int) + key.subrange(sh as int, key.len() as int) =~= key);
}

/// A block's entries read back as written.
pub proof fn lemma_block_roundtrip(s: Seq<EntryView>)
    requires
        short_entries(s),
    ensures
        decode_entries(block_data(s), 0, Seq::empty(), 0) == s,
{
    lemma_block_roundtrip_from(s, 0);
    assert(s.take(0) =~= Seq::<EntryView>::empty());
    assert(s.skip(0) =~= s);
}

proof fn lemma_block_roundtrip_from(s: Seq<EntryView>, k: int)
    requires
        short_entries(s),
        0 <= k <= s.len(),
    ensures
        decode_entries(block_data(s), block_data(s.take(k)).len() as int, prev_key(s, k), k as nat)
            == s.skip(k),
    decreases s.len() - k,
{
    let d = block_data(s);
    lemma_block_data_prefix(s, k);
    if k == s.len() {
        assert(s.take(k) =~= s);
        assert(s.skip(k) =~= Seq::<EntryView>::empty());
    } else {
        lemma_block_roundtrip_from(s, k + 1);
        lemma_block_data_prefix(s, k + 1);
        let t = s.take(k + 1);
        assert(t.drop_last() =~= s.take(k));
        assert(prev_key(t, k) == prev_key(s, k));
        let a = block_data(s.take(k));
        let e = entry_bytes(prev_key(s, k), is_reset(k), s[k].0, s[k].1);
        assert(block_data(t) == a + e);
        let pos = a.len() as int;
        assert(d.subrange(pos, pos + e.len()) =~= block_data(t).subrange(pos, pos + e.len())) by {
            assert(d.subrange(0, block_data(t).len() as int) == block_data(t));
        }
        assert(block_data(t).subrange(pos, pos + e.len()) =~= e);
        assert(s[k].0.len() < 65536 && s[k].1.len() < 65536);
        lemma_decode_one(d, pos, prev_key(s, k), k as nat, s[k].0, s[k].1);
        assert(prev_key(s, k + 1) == s[k].0);
        assert(s.skip(k) =~= seq![(s[k].0, s[k].1)] + s.skip(k + 1));
    }
}

/// How a writer groups entries into blocks: when an entry arrives and the
/// open block's data has reached `BLOCK_SIZE`, the block is closed and the
/// entry starts the next one. The closed blocks, and the open one.
pub open spec fn layout(s: Seq<EntryView>) -> (Seq<Seq<EntryView>>, Seq<EntryView>)
    decreases s.len(),
{
    if s.len() == 0 {
        (Seq::empty(), Seq::empty())
    } else {
        let (closed, open) = layout(s.drop_last());
        if open.len() > 0 && block_data(open).len() >= BLOCK_SIZE {
            (closed.push(open), seq![s.last()])
        } else {
            (closed, open.push(s.last()))
        }
    }
}

/// The blocks of a finished file.
pub open spec fn blocks_of(s: Seq<EntryView>) -> Seq<Seq<EntryView>> {
    let (closed, open) = layout(s);
    if open.len() > 0 {
        closed.push(open)
    } else {
        closed
    }
}

/// Blocks as written, one after another.
pub open spec fn concat_blocks(bs: Seq<Seq<EntryView>>) -> Seq<u8>
    decreases bs.len(),
{
    if bs.len() == 0 {
        Seq::empty()
    } else {
        concat_blocks(bs.drop_last()) + block_bytes(bs.last())
    }
}

/// A block's entry in the index: its first key (its length as 16 bits), the
/// file's timestamp range and the block's offset.
pub open spec fn index_entry(first: Seq<u8>, min: Timestamp, max: Timestamp, offset: nat) -> Seq<u8> {
    le16_bytes(first.len() % 65536) + first + be_seq(min@ as nat, 8) + be_seq(max@ as nat, 8)
        + le64_bytes(offset)
}

/// The index of blocks `bs`.
pub open spec fn index_bytes(bs: Seq<Seq<EntryView>>, min: Timestamp, max: Timestamp) -> Seq<u8>
    decreases bs.len(),
{
    if bs.len() == 0 {
        Seq::empty()
    } else {
        index_bytes(bs.drop_last(), min, max) + index_entry(
            bs.last()[0].0,
            min,
            max,
            concat_blocks(bs.drop_last()).len(),
        )
    }
}

/// Bytes of the bloom filter for `n` keys: ten bits a key, at least eight.
pub open spec fn bloom_size(n: nat) -> nat {
    if n == 0 {
        1
    } else {
        (n * 10 + 7) / 8
    }
}

/// The bit that hash `i` of `key` sets in a filter of `nbytes` bytes.
pub open spec fn bloom_pos(key: Seq<u8>, i: u32, nbytes: nat) -> nat {
    ((bloom_hash_spec(key, i) as usize) as nat) % (nbytes * 8)
}

pub open spec fn bit_mask(p: nat) -> u8 {
    1u8 << ((p % 8) as u32)
}

/// Whether bit `p` of `b` is set.
pub open spec fn bit_set(b: Seq<u8>, p: nat) -> bool {
    b[(p / 8) as int] & bit_mask(p) != 0
}

/// `b` with bit `p` set.
pub open spec fn set_bit(b: Seq<u8>, p: nat) -> Seq<u8> {
    b.update((p / 8) as int, b[(p / 8) as int] | bit_mask(p))
}

/// `b` with the bits of hashes `0..i` of `key` set.
pub open spec fn bloom_add(b: Seq<u8>, key: Seq<u8>, i: nat) -> Seq<u8>
    decreases i,
{
    if i == 0 {
        b
    } else {
        let c = bloom_add(b, key, (i - 1) as nat);
        set_bit(c, bloom_pos(key, (i - 1) as u32, b.len()))
    }
}

/// The bloom filter of `keys`, `nbytes` long.
pub open spec fn bloom_fill(keys: Seq<Seq<u8>>, nbytes: nat) -> Seq<u8>
    decreases keys.len(),
{
    if keys.len() == 0 {
        Seq::new(nbytes, |i: int| 0u8)
    } else {
        bloom_add(bloom_fill(keys.drop_last(), nbytes), keys.last(), BLOOM_HASH_COUNT as nat)
    }
}

pub open spec fn keys_of(s: Seq<EntryView>) -> Seq<Seq<u8>> {
    s.map_values(|e: EntryView| e.0)
}

/// Everything before the footer: the blocks, the index, the hash count and
/// the bloom filter.
pub open spec fn sst_body(s: Seq<EntryView>, min: Timestamp, max: Timestamp) -> Seq<u8> {
    concat_blocks(blocks_of(s)) + index_bytes(blocks_of(s), min, max) + le32_bytes(
        BLOOM_HASH_COUNT as nat,
    ) + bloom_fill(keys_of(s), bloom_size(s.len()))
}

/// The footer of the file written from entries `s`.
pub open spec fn sst_footer(s: Seq<EntryView>, min: Timestamp, max: Timestamp) -> SSTableFooter {
    SSTableFooter {
        index_offset: concat_blocks(blocks_of(s)).len() as u64,
        bloom_offset: (concat_blocks(blocks_of(s)).len() + index_bytes(blocks_of(s), min, max).len()) as u64,
        min_timestamp: min,
        max_timestamp: max,
        entry_count: s.len() as u64,
        version: SST_VERSION,
        checksum: crc32_of(0, sst_body(s, min, max)),
    }
}

/// The file written from entries `s`: its body, then its footer.
pub open spec fn sst_bytes(s: Seq<EntryView>, min: Timestamp, max: Timestamp) -> Seq<u8> {
    sst_body(s, min, max) + footer_bytes(sst_footer(s, min, max))
}

} // verus!
