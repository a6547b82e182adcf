//! Building an SSTable file from entries given in key order.
use crate::checksum::crc32_continue;
use crate::hlc::Timestamp;
use crate::sst::format::{
    block_bytes, block_data, blocks_of, bloom_add, bloom_fill, bloom_hash, bloom_pos, bloom_size,
    common_prefix_len, concat_blocks, entry_bytes, index_bytes, index_entry, is_reset, keys_of, layout,
    lemma_common_prefix, prev_key, push_le64, set_bit, shared_len, sst_body, sst_bytes, sst_footer,
    SSTableFooter, BLOCK_SIZE, BLOOM_HASH_COUNT, PREFIX_RESET_INTERVAL, SST_VERSION,
};
use crate::sst::memtable::EntryView;
use crate::bytes::be_seq;
use crate::wal::{push_le16, push_le32};
use vstd::prelude::*;

verus! {

/// The plain values of byte strings held as vectors.
pub open spec fn byte_views(v: Seq<Vec<u8>>) -> Seq<Seq<u8>> {
    v.map_values(|b: Vec<u8>| b@)
}

/// Where block `i` of `bs` starts in the file.
pub open spec fn block_offset(bs: Seq<Seq<EntryView>>, i: int) -> nat {
    concat_blocks(bs.take(i)).len()
}

/// The buffers of a writer: closed blocks, the open block and what the
/// index and the bloom filter will need.
struct WriterState {
    /// The closed blocks, as written.
    out: Vec<u8>,
    /// The entries of the open block.
    block_buf: Vec<u8>,
    /// The last key of the open block.
    prev_key: Vec<u8>,
    /// Entries in the open block.
    entries_in_block: usize,
    /// Each block's first key and offset.
    index: Vec<(Vec<u8>, u64)>,
    /// Every key added, for the bloom filter.
    all_keys: Vec<Vec<u8>>,
    min_ts: Timestamp,
    max_ts: Timestamp,
    added: Ghost<Seq<EntryView>>,
}

pub(crate) proof fn lemma_block_data_len(s: Seq<EntryView>)
    ensures
        block_data(s).len() >= 6 * s.len(),
    decreases s.len(),
{
    if s.len() > 0 {
        lemma_block_data_len(s.drop_last());
    }
}

proof fn lemma_block_data_push(s: Seq<EntryView>, e: EntryView)
    ensures
        block_data(s.push(e)) == block_data(s) + entry_bytes(
            prev_key(s.push(e), s.len() as int),
            is_reset(s.len() as int),
            e.0,
            e.1,
        ),
{
    assert(s.push(e).drop_last() =~= s);
}

proof fn lemma_concat_blocks_push(bs: Seq<Seq<EntryView>>, b: Seq<EntryView>)
    ensures
        concat_blocks(bs.push(b)) == concat_blocks(bs) + block_bytes(b),
{
    assert(bs.push(b).drop_last() =~= bs);
}

/// The layout after one more entry.
proof fn lemma_layout_push(s: Seq<EntryView>, e: EntryView)
    ensures
        layout(s.push(e)) == (if layout(s).1.len() > 0 && block_data(layout(s).1).len() >= BLOCK_SIZE {
            (layout(s).0.push(layout(s).1), seq![e])
        } else {
            (layout(s).0, layout(s).1.push(e))
        }),
{
    assert(s.push(e).drop_last() =~= s);
}

/// The open block is empty only before the first entry, and closed blocks
/// are never empty.
proof fn lemma_layout_shape(s: Seq<EntryView>)
    ensures
        (layout(s).1.len() == 0) == (s.len() == 0),
        forall|i: int| 0 <= i < layout(s).0.len() ==> (#[trigger] layout(s).0[i]).len() > 0,
    decreases s.len(),
{
    if s.len() > 0 {
        lemma_layout_shape(s.drop_last());
    }
}

/// Appends an entry at position `n` of a block whose previous key is `prev`.
fn append_entry(buf: &mut Vec<u8>, prev: &[u8], n: usize, key: &[u8], value: &[u8])
    ensures
        final(buf)@ == old(buf)@ + entry_bytes(prev@, is_reset(n as int), key@, value@),
{
    let shared: usize = if n % PREFIX_RESET_INTERVAL == 0 {
        0
    } else {
        common_prefix_len(prev, key) % 65536
    };
    proof {
        lemma_common_prefix(prev@, key@);
        assert(shared == shared_len(prev@, key@, is_reset(n as int)));
    }
    let suffix = vstd::slice::slice_subrange(key, shared, key.len());
    push_le16(buf, shared as u16);
    push_le16(buf, (suffix.len() % 65536) as u16);
    push_le16(buf, (value.len() % 65536) as u16);
    buf.extend_from_slice(suffix);
    buf.extend_from_slice(value);
    proof {
        assert(final(buf)@ =~= old(buf)@ + entry_bytes(prev@, is_reset(n as int), key@, value@));
    }
}

/// Each block's first key and offset.
pub open spec fn index_ok(index: Seq<(Vec<u8>, u64)>, bs: Seq<Seq<EntryView>>) -> bool {
    &&& index.len() == bs.len()
    &&& forall|i: int|
        0 <= i < bs.len() ==> (#[trigger] index[i]).0@ == bs[i][0].0 && index[i].1 == block_offset(bs, i)
}

/// The index after one more entry: a new block gets its first key and offset.
proof fn lemma_index_push(s: Seq<EntryView>, e: EntryView, index: Seq<(Vec<u8>, u64)>, index2: Seq<(Vec<u8>, u64)>)
    requires
        index_ok(index, blocks_of(s)),
        ({
            let open = if layout(s).1.len() > 0 && block_data(layout(s).1).len() >= BLOCK_SIZE {
                Seq::<EntryView>::empty()
            } else {
                layout(s).1
            };
            if open.len() == 0 {
                index2.len() == index.len() + 1 && index2.take(index.len() as int) == index
                    && index2.last().0@ == e.0 && index2.last().1 == concat_blocks(layout(s.push(e)).0).len()
            } else {
                index2 == index
            }
        }),
    ensures
        index_ok(index2, blocks_of(s.push(e))),
{
    let s2 = s.push(e);
    lemma_layout_push(s, e);
    lemma_layout_shape(s);
    let bs = blocks_of(s);
    let bs2 = blocks_of(s2);
    let closed = layout(s2).0;
    let open = if layout(s).1.len() > 0 && block_data(layout(s).1).len() >= BLOCK_SIZE {
        Seq::<EntryView>::empty()
    } else {
        layout(s).1
    };
    assert(layout(s2).1 == open.push(e));
    assert(bs2 == closed.push(open.push(e)));
    if open.len() == 0 {
        assert(closed == bs);
    } else {
        assert(bs == closed.push(open));
    }
    assert forall|i: int| 0 <= i < bs2.len() implies (#[trigger] index2[i]).0@ == bs2[i][0].0
        && index2[i].1 == block_offset(bs2, i) by {
        if i < bs2.len() - 1 {
            assert(bs2[i] == closed[i]);
            assert(bs2.take(i) =~= bs.take(i));
            if open.len() == 0 {
                assert(index2[i] == index2.take(index.len() as int)[i]);
            }
        } else {
            assert(bs2.take(i) =~= closed);
            if open.len() > 0 {
                assert(bs2[i][0] == open[0]);
                assert(bs.take(i) =~= closed);
            }
        }
    }
}

proof fn lemma_bloom_add_len(b: Seq<u8>, key: Seq<u8>, i: nat)
    requires
        b.len() > 0,
    ensures
        bloom_add(b, key, i).len() == b.len(),
    decreases i,
{
    if i > 0 {
        lemma_bloom_add_len(b, key, (i - 1) as nat);
        let p = bloom_pos(key, (i - 1) as u32, b.len());
        assert(p < b.len() * 8);
        assert(p / 8 < b.len()) by (nonlinear_arith)
            requires
                p < b.len() * 8,
        ;
    }
}

proof fn lemma_bloom_fill_len(keys: Seq<Seq<u8>>, n: nat)
    requires
        n > 0,
    ensures
        bloom_fill(keys, n).len() == n,
    decreases keys.len(),
{
    if keys.len() > 0 {
        lemma_bloom_fill_len(keys.drop_last(), n);
        lemma_bloom_add_len(bloom_fill(keys.drop_last(), n), keys.last(), BLOOM_HASH_COUNT as nat);
    }
}

/// The index bytes of the first `i` blocks, then of one more.
proof fn lemma_index_bytes_step(bs: Seq<Seq<EntryView>>, i: int, min: Timestamp, max: Timestamp)
    requires
        0 <= i < bs.len(),
    ensures
        index_bytes(bs.take(i + 1), min, max) == index_bytes(bs.take(i), min, max) + index_entry(
            bs[i][0].0,
            min,
            max,
            block_offset(bs, i),
        ),
{
    let t = bs.take(i + 1);
    assert(t.drop_last() =~= bs.take(i));
}

impl WriterState {
    /// The entries added so far.
    spec fn entries(&self) -> Seq<EntryView> {
        self.added@
    }

    spec fn min_ts(&self) -> Timestamp {
        self.min_ts
    }

    spec fn max_ts(&self) -> Timestamp {
        self.max_ts
    }

    /// The buffers hold the layout of the entries added so far.
    spec fn wf(&self) -> bool {
        let s = self.added@;
        let (closed, open) = layout(s);
        let bs = blocks_of(s);
        &&& self.out@ == concat_blocks(closed)
        &&& self.block_buf@ == block_data(open)
        &&& self.entries_in_block == open.len()
        &&& self.prev_key@ == prev_key(open, open.len() as int)
        &&& index_ok(self.index@, bs)
        &&& byte_views(self.all_keys@) == keys_of(s)
    }

    /// The number of entries added so far.
    fn entry_count(&self) -> (r: usize)
        requires
            self.wf(),
        ensures
            r == self.entries().len(),
    {
        proof {
            assert(byte_views(self.all_keys@).len() == self.all_keys@.len());
        }
        self.all_keys.len()
    }

    /// A writer for entries whose timestamps lie between `min_ts` and `max_ts`.
    fn new(min_ts: Timestamp, max_ts: Timestamp) -> (r: WriterState)
        ensures
            r.wf(),
            r.entries() == Seq::<EntryView>::empty(),
            r.min_ts() == min_ts,
            r.max_ts() == max_ts,
    {
        let r = WriterState {
            out: Vec::new(),
            block_buf: Vec::new(),
            prev_key: Vec::new(),
            entries_in_block: 0,
            index: Vec::new(),
            all_keys: Vec::new(),
            min_ts,
            max_ts,
            added: Ghost(Seq::empty()),
        };
        proof {
            assert(byte_views(r.all_keys@) =~= keys_of(Seq::<EntryView>::empty()));
            assert(r.out@ =~= concat_blocks(Seq::empty()));
            assert(r.block_buf@ =~= block_data(Seq::empty()));
        }
        r
    }

    /// Closes the open block: its entries and their CRC32 go to the output.
    fn finish_block(&mut self)
        requires
            old(self).wf(),
            layout(old(self).entries()).1.len() > 0,
        ensures
            final(self).entries() == old(self).entries(),
            final(self).min_ts == old(self).min_ts,
            final(self).max_ts == old(self).max_ts,
            final(self).out@ == concat_blocks(layout(old(self).entries()).0.push(layout(old(self).entries()).1)),
            final(self).block_buf@.len() == 0,
            final(self).prev_key@.len() == 0,
            final(self).entries_in_block == 0,
            final(self).index@ == old(self).index@,
            final(self).all_keys@ == old(self).all_keys@,
    {
        let ghost s = self.added@;
        let crc = crc32_continue(0, self.block_buf.as_slice());
        push_le32(&mut self.block_buf, crc);
        let mut block = Vec::new();
        std::mem::swap(&mut block, &mut self.block_buf);
        self.out.extend_from_slice(block.as_slice());
        self.prev_key.clear();
        self.entries_in_block = 0;
        proof {
            lemma_concat_blocks_push(layout(s).0, layout(s).1);
        }
    }

    /// Adds an entry. Entries are to be added in key order.
    fn add(&mut self, key: &[u8], value: &[u8])
        requires
            old(self).wf(),
        ensures
            final(self).wf(),
            final(self).entries() == old(self).entries().push((key@, value@)),
            final(self).min_ts() == old(self).min_ts(),
            final(self).max_ts() == old(self).max_ts(),
    {
        let ghost s = self.added@;
        let ghost e: EntryView = (key@, value@);
        let ghost s2 = s.push(e);
        proof {
            lemma_layout_push(s, e);
            lemma_layout_shape(s);
            lemma_layout_shape(s2);
            lemma_block_data_len(layout(s).1);
        }
        if self.block_buf.len() > 0 && self.block_buf.len() >= BLOCK_SIZE {
            self.finish_block();
        }
        let ghost open = if layout(s).1.len() > 0 && block_data(layout(s).1).len() >= BLOCK_SIZE {
            Seq::<EntryView>::empty()
        } else {
            layout(s).1
        };
        let ghost closed = layout(s2).0;
        proof {
            assert(layout(s2).1 == open.push(e));
            assert(self.out@ == concat_blocks(closed));
            assert(self.block_buf@ == block_data(open));
            assert(self.entries_in_block == open.len());
            assert(self.prev_key@ == prev_key(open, open.len() as int));
        }
        if self.entries_in_block == 0 {
            let first = vstd::slice::slice_to_vec(key);
            let offset = self.out.len() as u64;
            self.index.push((first, offset));
            self.prev_key.clear();
        }
        let n = self.entries_in_block;
        append_entry(&mut self.block_buf, self.prev_key.as_slice(), n, key, value);
        proof {
            lemma_block_data_push(open, e);
        }
        self.prev_key.clear();
        self.prev_key.extend_from_slice(key);
        self.all_keys.push(vstd::slice::slice_to_vec(key));
        self.entries_in_block = n + 1;
        self.added = Ghost(s2);
        proof {
            assert(byte_views(self.all_keys@) =~= keys_of(s2)) by {
                assert(keys_of(s2) =~= keys_of(s).push(key@));
                assert(byte_views(self.all_keys@) =~= byte_views(old(self).all_keys@).push(key@));
            }
            assert(self.prev_key@ =~= key@);
            if open.len() == 0 {
                assert(self.index@.take(old(self).index@.len() as int) =~= old(self).index@);
            }
            lemma_index_push(s, e, old(self).index@, self.index@);
        }
    }

    /// Writes the index, the bloom filter and the footer after the last
    /// block, and returns the file's bytes.
    fn finish(self) -> (r: Vec<u8>)
        requires
            self.wf(),
            self.entries().len() * 10 + 7 <= usize::MAX,
        ensures
            r@ == sst_bytes(self.entries(), self.min_ts(), self.max_ts()),
    {
        let mut w = self;
        let ghost s = w.added@;
        let ghost bs = blocks_of(s);
        proof {
            lemma_layout_shape(s);
            lemma_block_data_len(layout(s).1);
        }
        if w.block_buf.len() > 0 {
            w.finish_block();
        }
        let mut out = w.out;
        let index = w.index;
        let all_keys = w.all_keys;
        let min_ts = w.min_ts;
        let max_ts = w.max_ts;
        proof {
            assert(out@ == concat_blocks(bs));
            assert(bs.take(bs.len() as int) =~= bs);
        }
        let index_offset = out.len() as u64;
        let mut index_buf: Vec<u8> = Vec::new();
        let min_bytes = min_ts.to_bytes();
        let max_bytes = max_ts.to_bytes();
        let mut i: usize = 0;
        proof {
            assert(bs.take(0) =~= Seq::<Seq<EntryView>>::empty());
            assert(index_buf@ =~= index_bytes(bs.take(0), min_ts, max_ts));
        }
        while i < index.len()
            invariant
                i <= index.len(),
                index_ok(index@, bs),
                min_bytes@ == be_seq(min_ts@ as nat, 8),
                max_bytes@ == be_seq(max_ts@ as nat, 8),
                index_buf@ == index_bytes(bs.take(i as int), min_ts, max_ts),
            decreases index.len() - i,
        {
            let first = &index[i].0;
            let offset = index[i].1;
            push_le16(&mut index_buf, (first.len() % 65536) as u16);
            index_buf.extend_from_slice(first.as_slice());
            index_buf.extend_from_slice(min_bytes.as_slice());
            index_buf.extend_from_slice(max_bytes.as_slice());
            push_le64(&mut index_buf, offset);
            proof {
                lemma_index_bytes_step(bs, i as int, min_ts, max_ts);
                assert(index_buf@ =~= index_bytes(bs.take(i + 1), min_ts, max_ts));
            }
            i = i + 1;
        }
        out.extend_from_slice(index_buf.as_slice());
        let bloom_offset = out.len() as u64;
        let nkeys = all_keys.len();
        let ghost keys = keys_of(s);
        proof {
            assert(all_keys@.len() == s.len()) by {
                assert(byte_views(all_keys@).len() == keys.len());
            }
        }
        let nbytes: usize = if nkeys == 0 {
            1
        } else {
            (nkeys * 10 + 7) / 8
        };
        let nbits = nbytes * 8;
        proof {
            assert(nbytes == bloom_size(s.len()));
            assert(nbytes > 0);
            assert(nbits <= nkeys * 10 + 7 || nkeys == 0);
        }
        let mut bloom: Vec<u8> = Vec::new();
        let mut z: usize = 0;
        while z < nbytes
            invariant
                z <= nbytes,
                bloom@ == Seq::new(z as nat, |k: int| 0u8),
            decreases nbytes - z,
        {
            bloom.push(0u8);
            z = z + 1;
            proof {
                assert(bloom@ =~= Seq::new(z as nat, |k: int| 0u8));
            }
        }
        let mut j: usize = 0;
        proof {
            assert(keys.take(0) =~= Seq::<Seq<u8>>::empty());
        }
        while j < all_keys.len()
            invariant
                j <= all_keys.len(),
                nbytes > 0,
                nbits == nbytes * 8,
                byte_views(all_keys@) == keys,
                bloom@ == bloom_fill(keys.take(j as int), nbytes as nat),
            decreases all_keys.len() - j,
        {
            let key = all_keys[j].as_slice();
            let ghost base = bloom@;
            let mut h: u32 = 0;
            proof {
                assert(key@ == keys[j as int]);
                lemma_bloom_fill_len(keys.take(j as int), nbytes as nat);
            }
            while h < BLOOM_HASH_COUNT
                invariant
                    h <= BLOOM_HASH_COUNT,
                    nbytes > 0,
                    nbits == nbytes * 8,
                    base.len() == nbytes,
                    bloom@ == bloom_add(base, key@, h as nat),
                decreases BLOOM_HASH_COUNT - h,
            {
                let hv = bloom_hash(key, h);
                let p = (hv as usize) % nbits;
                proof {
                    lemma_bloom_add_len(base, key@, h as nat);
                    assert(p == bloom_pos(key@, h, base.len()));
                    assert(p / 8 < nbytes) by (nonlinear_arith)
                        requires
                            p < nbytes * 8,
                    ;
                }
                let byte = bloom[p / 8];
                bloom.set(p / 8, byte | (1u8 << ((p % 8) as u32)));
                proof {
                    assert(bloom@ =~= set_bit(bloom_add(base, key@, h as nat), p as nat));
                }
                h = h + 1;
            }
            proof {
                let t = keys.take(j + 1);
                assert(t.drop_last() =~= keys.take(j as int));
                assert(t.last() == key@);
            }
            j = j + 1;
        }
        proof {
            assert(keys.take(j as int) =~= keys);
        }
        push_le32(&mut out, BLOOM_HASH_COUNT);
        out.extend_from_slice(bloom.as_slice());
        proof {
            assert(out@ =~= sst_body(s, min_ts, max_ts));
        }
        let checksum = crc32_continue(0, out.as_slice());
        let footer = SSTableFooter {
            index_offset,
            bloom_offset,
            min_timestamp: min_ts,
            max_timestamp: max_ts,
            entry_count: nkeys as u64,
            version: SST_VERSION,
            checksum,
        };
        let fb = footer.to_bytes();
        out.extend_from_slice(fb.as_slice());
        proof {
            assert(footer == sst_footer(s, min_ts, max_ts));
        }
        out
    }
}

/// Builds an SSTable file in memory from entries added in key order.
pub struct SSTableWriter {
    st: WriterState,
}

impl SSTableWriter {
    /// The buffers always hold the layout of the entries added so far.
    #[verifier::type_invariant]
    spec fn inv(&self) -> bool {
        self.st.wf()
    }

    /// The entries added so far.
    pub closed spec fn entries(&self) -> Seq<EntryView> {
        self.st.entries()
    }

    pub closed spec fn min_ts(&self) -> Timestamp {
        self.st.min_ts()
    }

    pub closed spec fn max_ts(&self) -> Timestamp {
        self.st.max_ts()
    }

    /// A writer for entries whose timestamps lie between `min_ts` and `max_ts`.
    pub fn new(min_ts: Timestamp, max_ts: Timestamp) -> (r: SSTableWriter)
        ensures
            r.entries() == Seq::<EntryView>::empty(),
            r.min_ts() == min_ts,
            r.max_ts() == max_ts,
    {
        SSTableWriter { st: WriterState::new(min_ts, max_ts) }
    }

    /// The number of entries added so far.
    pub fn entry_count(&self) -> (r: usize)
        ensures
            r == self.entries().len(),
    {
        proof {
            use_type_invariant(self);
        }
        self.st.entry_count()
    }

    /// Adds an entry. Entries are to be added in key order.
    pub fn add(&mut self, key: &[u8], value: &[u8])
        ensures
            final(self).entries() == old(self).entries().push((key@, value@)),
            final(self).min_ts() == old(self).min_ts(),
            final(self).max_ts() == old(self).max_ts(),
    {
        proof {
            use_type_invariant(&*self);
        }
        let mut st = WriterState::new(self.st.min_ts, self.st.max_ts);
        std::mem::swap(&mut st, &mut self.st);
        st.add(key, value);
        self.st = st;
    }

    /// Writes the index, the bloom filter and the footer after the last
    /// block, and returns the file's bytes.
    pub fn finish(self) -> (r: Vec<u8>)
        requires
            self.entries().len() * 10 + 7 <= usize::MAX,
        ensures
            r@ == sst_bytes(self.entries(), self.min_ts(), self.max_ts()),
    {
        proof {
            use_type_invariant(&self);
        }
        let SSTableWriter { st } = self;
        st.finish()
    }
}

} // verus!