//! Reading an SSTable file: its footer, block index and bloom filter, point
//! lookups and prefix scans.
use crate::bytes::{bytes_eq, bytes_lt, is_prefix, lex_lt, prefix_successor, starts_with, successor};
use crate::sst::format::{
    bit_mask, bit_set, bloom_hash, bloom_pos, decode_entries, is_reset, le64, read_le64, SSTableFooter,
    BLOOM_HASH_COUNT, FOOTER_SIZE, PREFIX_RESET_INTERVAL,
};
use crate::sst::memtable::EntryView;
use crate::wal::{le16, read_le16};
use crate::Error;
use vstd::prelude::*;

verus! {

/// Where the footer starts.
pub open spec fn footer_start(d: Seq<u8>) -> int {
    d.len() - FOOTER_SIZE
}

pub open spec fn index_offset_of(d: Seq<u8>) -> nat {
    le64(d, footer_start(d))
}

pub open spec fn bloom_offset_of(d: Seq<u8>) -> nat {
    le64(d, footer_start(d) + 8)
}

/// The index entries from `pos` up to `end`: a first key, 16 bytes of
/// timestamps and a block offset each. Reading stops at the first entry that
/// does not fit.
pub open spec fn parse_index(d: Seq<u8>, pos: int, end: int) -> Seq<(Seq<u8>, nat)>
    decreases d.len() - pos,
{
    if pos < 0 || pos + 2 > end || end > d.len() {
        Seq::empty()
    } else {
        let key_len = le16(d, pos);
        let p = pos + 2;
        if p + key_len + 24 > d.len() {
            Seq::empty()
        } else {
            seq![(d.subrange(p, p + key_len), le64(d, p + key_len + 16))] + parse_index(
                d,
                p + key_len + 24,
                end,
            )
        }
    }
}

/// The block index of file `d`.
pub open spec fn index_of(d: Seq<u8>) -> Seq<(Seq<u8>, nat)> {
    let end = if bloom_offset_of(d) < d.len() {
        bloom_offset_of(d) as int
    } else {
        d.len() as int
    };
    parse_index(d, index_offset_of(d) as int, end)
}

/// The bloom filter of file `d`: the bytes after the hash count, up to the footer.
pub open spec fn bloom_of(d: Seq<u8>) -> Seq<u8> {
    let s = bloom_offset_of(d) + 4;
    if footer_start(d) > s {
        d.subrange(s as int, footer_start(d))
    } else {
        Seq::empty()
    }
}

/// The entries of block `i` of file `d`, whose index is `idx`.
pub open spec fn block_entries(d: Seq<u8>, idx: Seq<(Seq<u8>, nat)>, i: int) -> Seq<EntryView> {
    let start = idx[i].1;
    let end = if i + 1 < idx.len() {
        idx[i + 1].1
    } else {
        index_offset_of(d)
    };
    if end <= start + 4 || end > d.len() {
        Seq::empty()
    } else {
        decode_entries(d.subrange(start as int, end - 4), 0, Seq::empty(), 0)
    }
}

/// Whether the bloom filter lets `key` through: an empty filter lets all through.
pub open spec fn bloom_ok(b: Seq<u8>, key: Seq<u8>) -> bool {
    b.len() == 0 || forall|i: u32| i < BLOOM_HASH_COUNT ==> #[trigger] bit_set(b, bloom_pos(key, i, b.len()))
}

/// Block `b` is where `key` would be: its first key is not above `key`, and
/// the next block's first key is. `-1` stands for no block.
pub open spec fn bisect_ok(idx: Seq<(Seq<u8>, nat)>, key: Seq<u8>, b: int) -> bool {
    &&& -1 <= b < idx.len()
    &&& b < 0 || !lex_lt(key, idx[b].0)
    &&& b + 1 >= idx.len() || lex_lt(key, idx[b + 1].0)
}

/// The value of the first entry with `key`.
pub open spec fn find_value(es: Seq<EntryView>, key: Seq<u8>) -> Option<Seq<u8>>
    decreases es.len(),
{
    if es.len() == 0 {
        None
    } else if es[0].0 == key {
        Some(es[0].1)
    } else {
        find_value(es.drop_first(), key)
    }
}

/// What a lookup of `key` in file `d` may answer.
pub open spec fn get_ok(d: Seq<u8>, key: Seq<u8>, r: Option<Seq<u8>>) -> bool {
    if !bloom_ok(bloom_of(d), key) {
        r is None
    } else {
        exists|b: int|
            #[trigger] bisect_ok(index_of(d), key, b) && r == (if b < 0 {
                None
            } else {
                find_value(block_entries(d, index_of(d), b), key)
            })
    }
}

/// Whether `k` sorts after every key that starts with `prefix`.
pub open spec fn past_prefix(prefix: Seq<u8>, k: Seq<u8>) -> bool {
    match successor(prefix) {
        Some(sc) => !lex_lt(k, sc),
        None => false,
    }
}

/// The entries of a block that a prefix scan collects, and whether the scan
/// stops there: it stops at the first key past every key with the prefix.
pub open spec fn scan_entries(prefix: Seq<u8>, es: Seq<EntryView>) -> (Seq<EntryView>, bool)
    decreases es.len(),
{
    if es.len() == 0 {
        (Seq::empty(), false)
    } else if is_prefix(prefix, es[0].0) {
        let (r, stop) = scan_entries(prefix, es.drop_first());
        (seq![es[0]] + r, stop)
    } else if past_prefix(prefix, es[0].0) {
        (Seq::empty(), true)
    } else {
        scan_entries(prefix, es.drop_first())
    }
}

/// A prefix scan from block `i` on, having started at block `start`: a block
/// whose first key is past every key with the prefix ends it.
pub open spec fn scan_blocks(d: Seq<u8>, idx: Seq<(Seq<u8>, nat)>, prefix: Seq<u8>, i: int, start: int) -> Seq<EntryView>
    decreases idx.len() - i,
{
    if i < 0 || i >= idx.len() {
        Seq::empty()
    } else if i > start && past_prefix(prefix, idx[i].0) {
        Seq::empty()
    } else {
        let (r, stop) = scan_entries(prefix, block_entries(d, idx, i));
        if stop {
            r
        } else {
            r + scan_blocks(d, idx, prefix, i + 1, start)
        }
    }
}

/// The entries a scan collects from a block, followed by `tail` unless the
/// scan stops in that block.
pub open spec fn scan_cont(prefix: Seq<u8>, es: Seq<EntryView>, tail: Seq<EntryView>) -> Seq<EntryView> {
    let (r, stop) = scan_entries(prefix, es);
    if stop {
        r
    } else {
        r + tail
    }
}

/// The block a scan starts at, for bisection result `b`: the first block
/// when there is none.
pub open spec fn scan_start(b: int) -> int {
    if b < 0 {
        0
    } else {
        b
    }
}

/// What a prefix scan of file `d` may answer.
pub open spec fn scan_ok(d: Seq<u8>, prefix: Seq<u8>, r: Seq<EntryView>) -> bool {
    exists|b: int|
        #[trigger] bisect_ok(index_of(d), prefix, b) && r == scan_blocks(
            d,
            index_of(d),
            prefix,
            scan_start(b),
            scan_start(b),
        )
}

pub open spec fn index_views(v: Seq<(Vec<u8>, u64)>) -> Seq<(Seq<u8>, nat)> {
    v.map_values(|e: (Vec<u8>, u64)| (e.0@, e.1 as nat))
}

pub open spec fn entry_views(v: Seq<(Vec<u8>, Vec<u8>)>) -> Seq<EntryView> {
    v.map_values(|e: (Vec<u8>, Vec<u8>)| (e.0@, e.1@))
}

/// Reads the index entries between `start` and `end`.
fn read_index(d: &[u8], start: usize, end: usize) -> (r: Vec<(Vec<u8>, u64)>)
    requires
        end <= d.len(),
    ensures
        index_views(r@) == parse_index(d@, start as int, end as int),
{
    let mut out: Vec<(Vec<u8>, u64)> = Vec::new();
    let mut pos = start;
    proof {
        assert(index_views(out@) + parse_index(d@, pos as int, end as int) =~= parse_index(
            d@,
            start as int,
            end as int,
        ));
    }
    loop
        invariant
            end <= d.len(),
            pos <= d.len() || pos >= end,
            index_views(out@) + parse_index(d@, pos as int, end as int) == parse_index(
                d@,
                start as int,
                end as int,
            ),
        decreases d.len() - pos,
    {
        if pos >= end || end - pos < 2 {
            proof {
                assert(parse_index(d@, pos as int, end as int) =~= Seq::<(Seq<u8>, nat)>::empty());
                assert(index_views(out@) + Seq::<(Seq<u8>, nat)>::empty() =~= index_views(out@));
            }
            return out;
        }
        let key_len = read_le16(d, pos);
        let p = pos + 2;
        if key_len > d.len() - p || 24 > d.len() - p - key_len {
            proof {
                assert(parse_index(d@, pos as int, end as int) =~= Seq::<(Seq<u8>, nat)>::empty());
                assert(index_views(out@) + Seq::<(Seq<u8>, nat)>::empty() =~= index_views(out@));
            }
            return out;
        }
        let first = vstd::slice::slice_to_vec(vstd::slice::slice_subrange(d, p, p + key_len));
        let offset = read_le64(d, p + key_len + 16);
        let ghost before = index_views(out@);
        out.push((first, offset));
        proof {
            assert(index_views(out@) =~= before.push((d@.subrange(p as int, p + key_len), offset as nat)));
            assert(index_views(out@) + parse_index(d@, p + key_len + 24, end as int) =~= before + parse_index(
                d@,
                pos as int,
                end as int,
            ));
        }
        pos = p + key_len + 24;
    }
}

/// Decodes the entries of block data `d`.
fn decode_block_data(d: &[u8]) -> (r: Vec<(Vec<u8>, Vec<u8>)>)
    ensures
        entry_views(r@) == decode_entries(d@, 0, Seq::empty(), 0),
{
    let mut out: Vec<(Vec<u8>, Vec<u8>)> = Vec::new();
    let mut prev: Vec<u8> = Vec::new();
    let mut pos: usize = 0;
    let mut count: usize = 0;
    proof {
        assert(entry_views(out@) + decode_entries(d@, 0, prev@, 0) =~= decode_entries(d@, 0, Seq::empty(), 0));
    }
    while pos <= d.len() && 6 <= d.len() - pos
        invariant
            pos <= d.len(),
            count <= pos,
            entry_views(out@) + decode_entries(d@, pos as int, prev@, count as nat) == decode_entries(
                d@,
                0,
                Seq::empty(),
                0,
            ),
        decreases d.len() - pos,
    {
        let sh = read_le16(d, pos);
        let sl = read_le16(d, pos + 2);
        let vl = read_le16(d, pos + 4);
        let p = pos + 6;
        if sl > d.len() - p || vl > d.len() - p - sl {
            proof {
                assert(decode_entries(d@, pos as int, prev@, count as nat) =~= Seq::<EntryView>::empty());
                assert(entry_views(out@) + Seq::<EntryView>::empty() =~= entry_views(out@));
            }
            return out;
        }
        let ghost prev_before = prev@;
        if count % PREFIX_RESET_INTERVAL == 0 {
            prev.clear();
        }
        let keep = if sh <= prev.len() {
            sh
        } else {
            prev.len()
        };
        let mut key = vstd::slice::slice_to_vec(vstd::slice::slice_subrange(prev.as_slice(), 0, keep));
        key.extend_from_slice(vstd::slice::slice_subrange(d, p, p + sl));
        let value = vstd::slice::slice_to_vec(vstd::slice::slice_subrange(d, p + sl, p + sl + vl));
        let ghost before = entry_views(out@);
        let ghost ek = key@;
        let ghost ev = value@;
        proof {
            let base = if is_reset(count as int) {
                Seq::<u8>::empty()
            } else {
                prev_before
            };
            assert(prev@ =~= base);
            assert(ek =~= base.subrange(0, keep as int) + d@.subrange(p as int, p + sl));
            assert(ev =~= d@.subrange(p + sl, p + sl + vl));
            assert(decode_entries(d@, pos as int, prev_before, count as nat) == seq![(ek, ev)] + decode_entries(
                d@,
                p + sl + vl,
                ek,
                (count + 1) as nat,
            ));
        }
        prev = vstd::slice::slice_to_vec(key.as_slice());
        out.push((key, value));
        proof {
            assert(entry_views(out@) =~= before.push((ek, ev)));
            assert(entry_views(out@) + decode_entries(d@, p + sl + vl, ek, (count + 1) as nat) =~= before + (seq![(ek, ev)]
                + decode_entries(d@, p + sl + vl, ek, (count + 1) as nat)));
        }
        pos = p + sl + vl;
        count = count + 1;
    }
    proof {
        assert(decode_entries(d@, pos as int, prev@, count as nat) =~= Seq::<EntryView>::empty());
        assert(entry_views(out@) + Seq::<EntryView>::empty() =~= entry_views(out@));
    }
    out
}

/// A reader of an SSTable file held in memory.
pub struct SSTableReader {
    data: Vec<u8>,
    footer: SSTableFooter,
    block_index: Vec<(Vec<u8>, u64)>,
    bloom: Vec<u8>,
}

impl View for SSTableReader {
    type V = Seq<u8>;

    /// The file's bytes.
    closed spec fn view(&self) -> Seq<u8> {
        self.data@
    }
}

/// Finds the block where `key` would be, by bisection over the blocks'
/// first keys.
fn bisect(index: &Vec<(Vec<u8>, u64)>, key: &[u8]) -> (r: usize)
    ensures
        r <= index@.len(),
        bisect_ok(index_views(index@), key@, r - 1),
{
    let ghost idx = index_views(index@);
    let mut lo: usize = 0;
    let mut hi: usize = index.len();
    while lo < hi
        invariant
            lo <= hi <= index@.len(),
            idx == index_views(index@),
            lo == 0 || !lex_lt(key@, idx[lo - 1].0),
            hi == index@.len() || lex_lt(key@, idx[hi as int].0),
        decreases hi - lo,
    {
        let mid = lo + (hi - lo) / 2;
        proof {
            assert(idx[mid as int].0 == index@[mid as int].0@);
        }
        if bytes_lt(key, index[mid].0.as_slice()) {
            hi = mid;
        } else {
            lo = mid + 1;
        }
    }
    lo
}

impl SSTableReader {
    /// The parsed footer, index and bloom filter are those of the bytes.
    #[verifier::type_invariant]
    closed spec fn wf(&self) -> bool {
        let d = self.data@;
        &&& d.len() >= FOOTER_SIZE
        &&& self.footer.index_offset == index_offset_of(d)
        &&& self.footer.bloom_offset == bloom_offset_of(d)
        &&& index_views(self.block_index@) == index_of(d)
        &&& self.bloom@ == bloom_of(d)
    }

    /// Opens the SSTable file `data`. Fails when it is shorter than its footer.
    pub fn open(data: Vec<u8>) -> (r: Result<SSTableReader, Error>)
        ensures
            match r {
                Ok(reader) => reader@ == data@,
                Err(e) => data@.len() < FOOTER_SIZE && e is Corruption,
            },
    {
        if data.len() < FOOTER_SIZE {
            return Err(Error::Corruption("SSTable file too small".to_owned()));
        }
        let footer_pos = data.len() - FOOTER_SIZE;
        let footer = SSTableFooter::read_at(data.as_slice(), footer_pos);
        let len = data.len();
        let start: usize = if footer.index_offset < len as u64 {
            footer.index_offset as usize
        } else {
            len
        };
        let end: usize = if footer.bloom_offset < len as u64 {
            footer.bloom_offset as usize
        } else {
            len
        };
        let block_index = read_index(data.as_slice(), start, end);
        proof {
            let d = data@;
            if footer.index_offset >= len {
                assert(parse_index(d, start as int, end as int) =~= Seq::<(Seq<u8>, nat)>::empty());
                assert(parse_index(d, index_offset_of(d) as int, end as int) =~= Seq::<(Seq<u8>, nat)>::empty());
            }
        }
        let bloom: Vec<u8> = if footer.bloom_offset < footer_pos as u64 && footer_pos as u64 - footer.bloom_offset > 4 {
            let bs = (footer.bloom_offset + 4) as usize;
            vstd::slice::slice_to_vec(vstd::slice::slice_subrange(data.as_slice(), bs, footer_pos))
        } else {
            Vec::new()
        };
        Ok(SSTableReader { data, footer, block_index, bloom })
    }

    /// Whether the bloom filter lets `key` through.
    fn bloom_may_contain(&self, key: &[u8]) -> (r: bool)
        requires
            self.wf(),
        ensures
            r == bloom_ok(bloom_of(self@), key@),
    {
        let n = self.bloom.len();
        if n == 0 {
            return true;
        }
        let nbits: u128 = (n as u128) * 8;
        let mut i: u32 = 0;
        while i < BLOOM_HASH_COUNT
            invariant
                self.wf(),
                n == self.bloom@.len(),
                n > 0,
                nbits == n * 8,
                forall|j: u32| j < i ==> #[trigger] bit_set(self.bloom@, bloom_pos(key@, j, n as nat)),
            decreases BLOOM_HASH_COUNT - i,
        {
            let h = bloom_hash(key, i);
            let p: u128 = ((h as usize) as u128) % nbits;
            let byte_pos = (p / 8) as usize;
            let mask: u8 = 1u8 << ((p % 8) as u32);
            proof {
                assert(p == bloom_pos(key@, i, n as nat));
                assert(p / 8 < n) by (nonlinear_arith)
                    requires
                        p < n * 8,
                ;
                assert(mask == bit_mask(p as nat));
            }
            if self.bloom[byte_pos] & mask == 0 {
                proof {
                    assert(!bit_set(self.bloom@, bloom_pos(key@, i, n as nat)));
                    assert(self.bloom@ == bloom_of(self@));
                }
                return false;
            }
            i = i + 1;
        }
        true
    }

    /// Decodes the entries of block `i`.
    fn decode_block(&self, i: usize) -> (r: Vec<(Vec<u8>, Vec<u8>)>)
        requires
            self.wf(),
            i < index_of(self@).len(),
        ensures
            entry_views(r@) == block_entries(self@, index_of(self@), i as int),
    {
        let ghost idx = index_of(self@);
        proof {
            assert(index_views(self.block_index@).len() == self.block_index@.len());
            assert(self.block_index@.len() == idx.len());
            assert(i < self.block_index.len());
            assert(idx[i as int].1 == self.block_index@[i as int].1);
            if i + 1 < idx.len() {
                assert(idx[i + 1].1 == self.block_index@[i + 1].1);
            }
        }
        let start = self.block_index[i].1;
        let end = if i + 1 < self.block_index.len() {
            self.block_index[i + 1].1
        } else {
            self.footer.index_offset
        };
        if end <= start || end - start <= 4 || end > self.data.len() as u64 {
            proof {
                assert(block_entries(self@, idx, i as int) =~= Seq::<EntryView>::empty());
                assert(entry_views(Seq::<(Vec<u8>, Vec<u8>)>::empty()) =~= Seq::<EntryView>::empty());
            }
            return Vec::new();
        }
        let slice = vstd::slice::slice_subrange(self.data.as_slice(), start as usize, (end - 4) as usize);
        decode_block_data(slice)
    }

    /// Looks up `key`.
    pub fn get(&self, key: &[u8]) -> (r: Option<Vec<u8>>)
        ensures
            get_ok(self@, key@, match r {
                Some(v) => Some(v@),
                None => None,
            }),
    {
        proof {
            use_type_invariant(self);
        }
        if !self.bloom_may_contain(key) {
            return None;
        }
        let ghost idx = index_of(self@);
        let lo = bisect(&self.block_index, key);
        proof {
            assert(idx == index_views(self.block_index@));
            assert(index_views(self.block_index@).len() == self.block_index@.len());
        }
        if lo == 0 {
            proof {
                assert(bisect_ok(idx, key@, -1));
            }
            return None;
        }
        let b = lo - 1;
        let entries = self.decode_block(b);
        let ghost es = entry_views(entries@);
        let mut j: usize = 0;
        proof {
            assert(es.subrange(0, es.len() as int) =~= es);
        }
        while j < entries.len()
            invariant
                self.wf(),
                idx == index_of(self@),
                b < idx.len(),
                bisect_ok(idx, key@, b as int),
                bloom_ok(bloom_of(self@), key@),
                es == block_entries(self@, idx, b as int),
                j <= entries.len(),
                es == entry_views(entries@),
                find_value(es, key@) == find_value(es.subrange(j as int, es.len() as int), key@),
            decreases entries.len() - j,
        {
            let ghost rest = es.subrange(j as int, es.len() as int);
            proof {
                assert(rest[0] == (entries@[j as int].0@, entries@[j as int].1@));
                assert(rest.drop_first() =~= es.subrange(j + 1, es.len() as int));
            }
            if bytes_eq(entries[j].0.as_slice(), key) {
                let v = vstd::slice::slice_to_vec(entries[j].1.as_slice());
                proof {
                    assert(bisect_ok(idx, key@, b as int));
                    assert(find_value(block_entries(self@, idx, b as int), key@) == Some(v@));
                }
                return Some(v);
            }
            j = j + 1;
        }
        proof {
            assert(es.subrange(j as int, es.len() as int) =~= Seq::<EntryView>::empty());
            assert(bisect_ok(idx, key@, b as int));
        }
        None
    }

    /// All entries whose key starts with `prefix`, in file order.
    pub fn scan_prefix(&self, prefix: &[u8]) -> (r: Vec<(Vec<u8>, Vec<u8>)>)
        ensures
            scan_ok(self@, prefix@, entry_views(r@)),
    {
        proof {
            use_type_invariant(self);
        }
        let ghost d = self@;
        let ghost idx = index_of(d);
        let lo = bisect(&self.block_index, prefix);
        let start: usize = if lo == 0 {
            0
        } else {
            lo - 1
        };
        let ghost target = scan_blocks(d, idx, prefix@, start as int, start as int);
        proof {
            assert(idx == index_views(self.block_index@));
            assert(index_views(self.block_index@).len() == self.block_index@.len());
            assert(bisect_ok(idx, prefix@, lo - 1));
        }
        let succ = prefix_successor(prefix);
        let mut results: Vec<(Vec<u8>, Vec<u8>)> = Vec::new();
        let mut bi = start;
        proof {
            assert(entry_views(results@) + target =~= target);
        }
        while bi < self.block_index.len()
            invariant
                self.wf(),
                d == self@,
                idx == index_of(d),
                idx.len() == self.block_index@.len(),
                idx == index_views(self.block_index@),
                start <= bi,
                match succ {
                    Some(v) => successor(prefix@) == Some(v@),
                    None => successor(prefix@) is None,
                },
                entry_views(results@) + scan_blocks(d, idx, prefix@, bi as int, start as int) == target,
                bisect_ok(idx, prefix@, lo - 1),
                start == (if lo == 0 { 0 } else { lo - 1 }),
                target == scan_blocks(d, idx, prefix@, start as int, start as int),
            decreases self.block_index.len() - bi,
        {
            if bi > start {
                match &succ {
                    Some(sc) => {
                        proof {
                            assert(idx[bi as int].0 == self.block_index@[bi as int].0@);
                        }
                        if !bytes_lt(self.block_index[bi].0.as_slice(), sc.as_slice()) {
                            proof {
                                assert(scan_blocks(d, idx, prefix@, bi as int, start as int) =~= Seq::<EntryView>::empty());
                                assert(entry_views(results@) + Seq::<EntryView>::empty() =~= entry_views(results@));
                            }
                            return results;
                        }
                    },
                    None => {},
                }
            }
            let entries = self.decode_block(bi);
            let ghost es = entry_views(entries@);
            let ghost tail = scan_blocks(d, idx, prefix@, bi + 1, start as int);
            proof {
                assert(scan_blocks(d, idx, prefix@, bi as int, start as int) == scan_cont(prefix@, es, tail));
                assert(es.subrange(0, es.len() as int) =~= es);
            }
            let mut j: usize = 0;
            while j < entries.len()
                invariant
                    j <= entries.len(),
                    es == entry_views(entries@),
                    match succ {
                        Some(v) => successor(prefix@) == Some(v@),
                        None => successor(prefix@) is None,
                    },
                    entry_views(results@) + scan_cont(prefix@, es.subrange(j as int, es.len() as int), tail) == target,
                    idx == index_of(d),
                    d == self@,
                    bisect_ok(idx, prefix@, lo - 1),
                    start == (if lo == 0 { 0 } else { lo - 1 }),
                    target == scan_blocks(d, idx, prefix@, start as int, start as int),
                decreases entries.len() - j,
            {
                let ghost rest = es.subrange(j as int, es.len() as int);
                let ghost before = entry_views(results@);
                proof {
                    assert(rest[0] == (entries@[j as int].0@, entries@[j as int].1@));
                    assert(rest.drop_first() =~= es.subrange(j + 1, es.len() as int));
                }
                let k = entries[j].0.as_slice();
                if starts_with(k, prefix) {
                    let kv = vstd::slice::slice_to_vec(k);
                    let vv = vstd::slice::slice_to_vec(entries[j].1.as_slice());
                    results.push((kv, vv));
                    proof {
                        assert(entry_views(results@) =~= before.push(rest[0]));
                        let (r2, st2) = scan_entries(prefix@, rest.drop_first());
                        assert(scan_entries(prefix@, rest) == (seq![rest[0]] + r2, st2));
                        if st2 {
                            assert(before + scan_cont(prefix@, rest, tail) =~= entry_views(results@) + scan_cont(prefix@, rest.drop_first(), tail));
                        } else {
                            assert(before + scan_cont(prefix@, rest, tail) =~= entry_views(results@) + scan_cont(prefix@, rest.drop_first(), tail));
                        }
                    }
                } else {
                    match &succ {
                        Some(sc) => {
                            if !bytes_lt(k, sc.as_slice()) {
                                proof {
                                    assert(past_prefix(prefix@, rest[0].0));
                                    assert(scan_cont(prefix@, rest, tail) =~= Seq::<EntryView>::empty());
                                    assert(entry_views(results@) + Seq::<EntryView>::empty() =~= entry_views(results@));
                                }
                                return results;
                            }
                        },
                        None => {},
                    }
                }
                j = j + 1;
            }
            proof {
                assert(es.subrange(j as int, es.len() as int) =~= Seq::<EntryView>::empty());
                assert(scan_cont(prefix@, Seq::<EntryView>::empty(), tail) =~= tail);
            }
            bi = bi + 1;
        }
        proof {
            assert(scan_blocks(d, idx, prefix@, bi as int, start as int) =~= Seq::<EntryView>::empty());
            assert(entry_views(results@) + Seq::<EntryView>::empty() =~= entry_views(results@));
        }
        results
    }
}

} // verus!