//! What a reader gives back of a file that the writer wrote.
use crate::bytes::{lemma_lex_asymmetric, lemma_lex_irreflexive, lemma_lex_transitive, lex_lt};
use crate::bytes::{is_prefix, lemma_be_seq_len, lemma_lex_total, lemma_prefix_range, successor};
use crate::hlc::Timestamp;
use crate::sst::read::{
    bisect_ok, block_entries, bloom_ok, bloom_of, bloom_offset_of, find_value, footer_start, get_ok, index_of,
    index_offset_of, parse_index, past_prefix, scan_blocks, scan_entries, scan_ok, scan_start,
};
use crate::sst::write::lemma_block_data_len;
use crate::wal::{le16_bytes, le32_bytes, lemma_le16, lemma_le16_at, lemma_le32};
use crate::sst::format::{
    bit_mask, bit_set, block_bytes, block_data, blocks_of, bloom_add, bloom_fill, bloom_pos, concat_blocks,
    bloom_size, footer_bytes, index_bytes, index_entry, keys_of, layout, le64_bytes, lemma_block_roundtrip,
    lemma_footer_roundtrip, lemma_le64, lemma_le64_at, set_bit, short_entries, sst_body, sst_bytes,
    sst_footer, BLOCK_SIZE, BLOOM_HASH_COUNT, FOOTER_SIZE,
};
use crate::sst::memtable::{entries_map, has_key, key_index, lemma_map_of_sorted, sorted_keys, EntryView};
use crate::sst::write::block_offset;
use vstd::prelude::*;

verus! {

/// Blocks laid end to end: their entries in order.
pub open spec fn flatten(bs: Seq<Seq<EntryView>>) -> Seq<EntryView>
    decreases bs.len(),
{
    if bs.len() == 0 {
        Seq::empty()
    } else {
        flatten(bs.drop_last()) + bs.last()
    }
}

/// Where block `i` starts among the entries.
pub open spec fn block_start(bs: Seq<Seq<EntryView>>, i: int) -> nat {
    flatten(bs.take(i)).len()
}

pub open spec fn nonempty_blocks(bs: Seq<Seq<EntryView>>) -> bool {
    forall|i: int| 0 <= i < bs.len() ==> (#[trigger] bs[i]).len() > 0
}

/// The writer's blocks hold the entries in order, none of them empty.
pub proof fn lemma_blocks_partition(s: Seq<EntryView>)
    ensures
        flatten(blocks_of(s)) == s,
        nonempty_blocks(blocks_of(s)),
{
    lemma_layout_partition(s);
    let (c, o) = layout(s);
    if o.len() > 0 {
        assert(c.push(o).drop_last() =~= c);
    }
}

proof fn lemma_layout_partition(s: Seq<EntryView>)
    ensures
        flatten(layout(s).0) + layout(s).1 == s,
        nonempty_blocks(layout(s).0),
        (layout(s).1.len() == 0) == (s.len() == 0),
    decreases s.len(),
{
    if s.len() == 0 {
        assert(flatten(Seq::<Seq<EntryView>>::empty()) + Seq::<EntryView>::empty() =~= s);
    } else {
        let t = s.drop_last();
        lemma_layout_partition(t);
        let (c, o) = layout(t);
        let e = s.last();
        assert(s =~= t.push(e));
        if o.len() > 0 && block_data(o).len() >= BLOCK_SIZE {
            assert(c.push(o).drop_last() =~= c);
            assert(flatten(c.push(o)) + seq![e] =~= s);
        } else {
            assert(flatten(c) + o.push(e) =~= s);
        }
    }
}

/// The entries of the first `i + 1` blocks: those of the first `i`, then
/// block `i`.
pub proof fn lemma_flatten_take(bs: Seq<Seq<EntryView>>, i: int)
    requires
        0 <= i < bs.len(),
    ensures
        flatten(bs.take(i + 1)) == flatten(bs.take(i)) + bs[i],
        block_start(bs, i + 1) == block_start(bs, i) + bs[i].len(),
{
    assert(bs.take(i + 1).drop_last() =~= bs.take(i));
}

/// The entries of the first `i` blocks come first.
pub proof fn lemma_flatten_prefix(bs: Seq<Seq<EntryView>>, i: int)
    requires
        0 <= i <= bs.len(),
    ensures
        flatten(bs.take(i)).len() <= flatten(bs).len(),
        flatten(bs).subrange(0, flatten(bs.take(i)).len() as int) == flatten(bs.take(i)),
    decreases bs.len() - i,
{
    if i == bs.len() {
        assert(bs.take(i) =~= bs);
    } else {
        lemma_flatten_prefix(bs, i + 1);
        lemma_flatten_take(bs, i);
        let a = flatten(bs.take(i));
        let b = flatten(bs.take(i + 1));
        let f = flatten(bs);
        assert(f.subrange(0, a.len() as int) =~= f.subrange(0, b.len() as int).subrange(0, a.len() as int));
        assert(b.subrange(0, a.len() as int) =~= a);
    }
}

/// Entry `k` of block `i` is entry `block_start(i) + k` of all.
pub proof fn lemma_flatten_index(bs: Seq<Seq<EntryView>>, i: int, k: int)
    requires
        0 <= i < bs.len(),
        0 <= k < bs[i].len(),
    ensures
        block_start(bs, i) + k < flatten(bs).len(),
        flatten(bs)[block_start(bs, i) + k] == bs[i][k],
{
    lemma_flatten_take(bs, i);
    lemma_flatten_prefix(bs, i + 1);
    let f = flatten(bs);
    let b = flatten(bs.take(i + 1));
    assert(f.subrange(0, b.len() as int)[block_start(bs, i) + k] == b[block_start(bs, i) + k]);
}

/// Block starts grow with the block number.
pub proof fn lemma_block_start_mono(bs: Seq<Seq<EntryView>>, i: int, j: int)
    requires
        0 <= i <= j <= bs.len(),
    ensures
        block_start(bs, i) <= block_start(bs, j),
        nonempty_blocks(bs) && i < j ==> block_start(bs, i) < block_start(bs, j),
    decreases j - i,
{
    if i < j {
        lemma_block_start_mono(bs, i, j - 1);
        lemma_flatten_take(bs, j - 1);
    }
}

/// Every entry lies in some block.
pub proof fn lemma_block_of(bs: Seq<Seq<EntryView>>, j: int) -> (b: int)
    requires
        0 <= j < flatten(bs).len(),
    ensures
        0 <= b < bs.len(),
        block_start(bs, b) <= j < block_start(bs, b + 1),
    decreases bs.len(),
{
    let n = bs.len() as int;
    assert(n > 0);
    let t = bs.drop_last();
    assert(bs.take(n) =~= bs);
    assert(bs.take(n - 1) =~= t);
    lemma_flatten_take(bs, n - 1);
    if j >= block_start(bs, n - 1) {
        n - 1
    } else {
        assert(flatten(t) == flatten(bs.take(n - 1)));
        let b = lemma_block_of(t, j);
        assert(t.take(b) =~= bs.take(b));
        assert(t.take(b + 1) =~= bs.take(b + 1));
        b
    }
}

/// The index entry of block `i`: its first key and where it starts.
pub open spec fn index_list(bs: Seq<Seq<EntryView>>) -> Seq<(Seq<u8>, nat)> {
    Seq::new(bs.len(), |i: int| (bs[i][0].0, block_offset(bs, i)))
}

proof fn lemma_sub_concat3(a: Seq<u8>, b: Seq<u8>, c: Seq<u8>, x: int, y: int)
    requires
        0 <= x <= y <= b.len(),
    ensures
        (a + b + c).subrange(a.len() + x, a.len() + y) == b.subrange(x, y),
{
    assert((a + b + c).subrange(a.len() + x, a.len() + y) =~= b.subrange(x, y));
}

/// The bytes of the first `i + 1` blocks: those of the first `i`, then
/// block `i`; and the first `i` come first.
proof fn lemma_concat_blocks_take(bs: Seq<Seq<EntryView>>, i: int)
    requires
        0 <= i <= bs.len(),
    ensures
        concat_blocks(bs.take(i)).len() <= concat_blocks(bs).len(),
        concat_blocks(bs).subrange(0, concat_blocks(bs.take(i)).len() as int) == concat_blocks(bs.take(i)),
        i < bs.len() ==> concat_blocks(bs.take(i + 1)) == concat_blocks(bs.take(i)) + block_bytes(bs[i]),
    decreases bs.len() - i,
{
    if i < bs.len() {
        assert(bs.take(i + 1).drop_last() =~= bs.take(i));
    }
    if i == bs.len() {
        assert(bs.take(i) =~= bs);
    } else {
        lemma_concat_blocks_take(bs, i + 1);
        let a = concat_blocks(bs.take(i));
        let b = concat_blocks(bs.take(i + 1));
        let f = concat_blocks(bs);
        assert(f.subrange(0, a.len() as int) =~= f.subrange(0, b.len() as int).subrange(0, a.len() as int));
        assert(b.subrange(0, a.len() as int) =~= a);
    }
}

/// The same for the index.
proof fn lemma_index_bytes_take(bs: Seq<Seq<EntryView>>, i: int, min: Timestamp, max: Timestamp)
    requires
        0 <= i <= bs.len(),
    ensures
        index_bytes(bs.take(i), min, max).len() <= index_bytes(bs, min, max).len(),
        index_bytes(bs, min, max).subrange(0, index_bytes(bs.take(i), min, max).len() as int)
            == index_bytes(bs.take(i), min, max),
        i < bs.len() ==> index_bytes(bs.take(i + 1), min, max) == index_bytes(bs.take(i), min, max)
            + index_entry(bs[i][0].0, min, max, block_offset(bs, i)),
    decreases bs.len() - i,
{
    if i < bs.len() {
        let t = bs.take(i + 1);
        assert(t.drop_last() =~= bs.take(i));
    }
    if i == bs.len() {
        assert(bs.take(i) =~= bs);
    } else {
        lemma_index_bytes_take(bs, i + 1, min, max);
        let a = index_bytes(bs.take(i), min, max);
        let b = index_bytes(bs.take(i + 1), min, max);
        let f = index_bytes(bs, min, max);
        assert(f.subrange(0, a.len() as int) =~= f.subrange(0, b.len() as int).subrange(0, a.len() as int));
        assert(b.subrange(0, a.len() as int) =~= a);
    }
}

/// One index entry reads back as written.
#[verifier::rlimit(40)]
#[verifier::spinoff_prover]
proof fn lemma_parse_index_entry(d: Seq<u8>, pos: int, end: int, first: Seq<u8>, min: Timestamp, max: Timestamp, off: nat)
    requires
        0 <= pos,
        first.len() < 65536,
        off < 0x1_0000_0000_0000_0000,
        pos + index_entry(first, min, max, off).len() <= end <= d.len(),
        d.subrange(pos, pos + index_entry(first, min, max, off).len()) == index_entry(first, min, max, off),
    ensures
        parse_index(d, pos, end) == seq![(first, off)] + parse_index(
            d,
            pos + index_entry(first, min, max, off).len(),
            end,
        ),
{
    let e = index_entry(first, min, max, off);
    let kl = first.len() as int;
    lemma_le16(first.len());
    lemma_be_seq_len(min@ as nat, 8);
    lemma_be_seq_len(max@ as nat, 8);
    lemma_le64(off);
    assert(e.len() == 2 + kl + 24);
    assert(d.subrange(pos, pos + 2) =~= e.subrange(0, 2));
    assert(e.subrange(0, 2) =~= le16_bytes(first.len()));
    lemma_le16_at(d, pos, first.len());
    let p = pos + 2;
    assert(d.subrange(p, p + kl) =~= e.subrange(2, 2 + kl));
    assert(e.subrange(2, 2 + kl) =~= first);
    assert(d.subrange(p + kl + 16, p + kl + 24) =~= e.subrange(2 + kl + 16, 2 + kl + 24));
    assert(e.subrange(2 + kl + 16, 2 + kl + 24) =~= le64_bytes(off));
    lemma_le64_at(d, p + kl + 16, off);
}

/// The index as written reads back entry by entry.
#[verifier::spinoff_prover]
#[verifier::rlimit(60)]
proof fn lemma_parse_written_index(
    d: Seq<u8>,
    pre: Seq<u8>,
    bs: Seq<Seq<EntryView>>,
    min: Timestamp,
    max: Timestamp,
    rest: Seq<u8>,
    k: int,
)
    requires
        d == pre + index_bytes(bs, min, max) + rest,
        0 <= k <= bs.len(),
        nonempty_blocks(bs),
        forall|i: int| 0 <= i < bs.len() ==> (#[trigger] bs[i])[0].0.len() < 65536,
        forall|i: int| 0 <= i < bs.len() ==> #[trigger] block_offset(bs, i) < 0x1_0000_0000_0000_0000,
    ensures
        parse_index(
            d,
            (pre.len() + index_bytes(bs.take(k), min, max).len()) as int,
            (pre.len() + index_bytes(bs, min, max).len()) as int,
        ) == index_list(bs).skip(k),
    decreases bs.len() - k,
{
    let ib = index_bytes(bs, min, max);
    let end = pre.len() + ib.len();
    lemma_index_bytes_take(bs, k, min, max);
    if k == bs.len() {
        assert(bs.take(k) =~= bs);
        assert(index_list(bs).skip(k) =~= Seq::<(Seq<u8>, nat)>::empty());
    } else {
        lemma_index_bytes_take(bs, k + 1, min, max);
        lemma_parse_written_index(d, pre, bs, min, max, rest, k + 1);
        let a = index_bytes(bs.take(k), min, max);
        let first = bs[k][0].0;
        let off = block_offset(bs, k);
        let e = index_entry(first, min, max, off);
        let pos = (pre.len() + a.len()) as int;
        let ae = (a.len() + e.len()) as int;
        assert(ib.subrange(a.len() as int, ae) =~= e) by {
            let b = index_bytes(bs.take(k + 1), min, max);
            assert(ib.subrange(0, b.len() as int) == b);
            assert(ib.subrange(a.len() as int, ae) =~= b.subrange(a.len() as int, b.len() as int));
            assert(b.subrange(a.len() as int, b.len() as int) =~= e);
        }
        lemma_sub_concat3(pre, ib, rest, a.len() as int, ae);
        lemma_parse_index_entry(d, pos, end as int, first, min, max, off);
        assert(index_list(bs).skip(k) =~= seq![(first, off)] + index_list(bs).skip(k + 1));
    }
}

proof fn lemma_or_bits(x: u8, m1: u8, m2: u8, sh: u32)
    by (bit_vector)
    ensures
        x & m2 != 0 ==> (x | m1) & m2 != 0,
        sh < 8 ==> (x | (1u8 << sh)) & (1u8 << sh) != 0,
{
}

/// Setting a bit sets it and keeps the others that were set.
proof fn lemma_set_bit(b: Seq<u8>, p: nat, q: nat)
    requires
        p < b.len() * 8,
        q < b.len() * 8,
    ensures
        bit_set(set_bit(b, p), p),
        bit_set(b, q) ==> bit_set(set_bit(b, p), q),
        set_bit(b, p).len() == b.len(),
{
    assert(p / 8 < b.len()) by (nonlinear_arith)
        requires
            p < b.len() * 8,
    ;
    assert(q / 8 < b.len()) by (nonlinear_arith)
        requires
            q < b.len() * 8,
    ;
    let x = b[(p / 8) as int];
    lemma_or_bits(x, bit_mask(p), bit_mask(q), (p % 8) as u32);
    lemma_or_bits(b[(q / 8) as int], bit_mask(p), bit_mask(q), (q % 8) as u32);
}

/// Adding a key's hashes keeps the bits that were set, and sets the key's.
proof fn lemma_bloom_add_bits(b: Seq<u8>, key: Seq<u8>, i: nat, q: nat)
    requires
        b.len() > 0,
        q < b.len() * 8,
    ensures
        bloom_add(b, key, i).len() == b.len(),
        bit_set(b, q) ==> bit_set(bloom_add(b, key, i), q),
        forall|j: u32| j < i ==> #[trigger] bit_set(bloom_add(b, key, i), bloom_pos(key, j, b.len())),
    decreases i,
{
    if i > 0 {
        let c = bloom_add(b, key, (i - 1) as nat);
        let p = bloom_pos(key, (i - 1) as u32, b.len());
        lemma_bloom_add_bits(b, key, (i - 1) as nat, q);
        lemma_set_bit(c, p, q);
        assert forall|j: u32| j < i implies #[trigger] bit_set(bloom_add(b, key, i), bloom_pos(key, j, b.len())) by {
            let pj = bloom_pos(key, j, b.len());
            lemma_bloom_add_bits(b, key, (i - 1) as nat, pj);
            lemma_set_bit(c, p, pj);
        }
    }
}

/// Every key of the filter passes it.
pub proof fn lemma_bloom_fill_bits(keys: Seq<Seq<u8>>, n: nat, k: int, q: nat)
    requires
        n > 0,
        0 <= k < keys.len(),
        q < n * 8,
    ensures
        bloom_fill(keys, n).len() == n,
        forall|j: u32| j < BLOOM_HASH_COUNT ==> #[trigger] bit_set(bloom_fill(keys, n), bloom_pos(keys[k], j, n)),
    decreases keys.len(),
{
    let t = keys.drop_last();
    lemma_bloom_fill_len(keys, n);
    lemma_bloom_fill_len(t, n);
    let base = bloom_fill(t, n);
    if k == keys.len() - 1 {
        lemma_bloom_add_bits(base, keys.last(), BLOOM_HASH_COUNT as nat, q);
    } else {
        assert forall|j: u32| j < BLOOM_HASH_COUNT implies #[trigger] bit_set(bloom_fill(keys, n), bloom_pos(keys[k], j, n)) by {
            let pj = bloom_pos(keys[k], j, n);
            lemma_bloom_fill_bits(t, n, k, pj);
            assert(t[k] == keys[k]);
            lemma_bloom_add_bits(base, keys.last(), BLOOM_HASH_COUNT as nat, pj);
        }
    }
}

proof fn lemma_bloom_fill_len(keys: Seq<Seq<u8>>, n: nat)
    requires
        n > 0,
    ensures
        bloom_fill(keys, n).len() == n,
    decreases keys.len(),
{
    if keys.len() > 0 {
        lemma_bloom_fill_len(keys.drop_last(), n);
        lemma_bloom_add_bits(bloom_fill(keys.drop_last(), n), keys.last(), BLOOM_HASH_COUNT as nat, 0);
    }
}

/// Entries of a block are entries of the file.
proof fn lemma_block_entries_short(s: Seq<EntryView>, i: int)
    requires
        short_entries(s),
        0 <= i < blocks_of(s).len(),
    ensures
        short_entries(blocks_of(s)[i]),
        blocks_of(s)[i].len() > 0,
        blocks_of(s)[i][0].0.len() < 65536,
{
    let bs = blocks_of(s);
    lemma_blocks_partition(s);
    assert forall|k: int| 0 <= k < bs[i].len() implies (#[trigger] bs[i][k]).0.len() < 65536 && bs[i][k].1.len() < 65536 by {
        lemma_flatten_index(bs, i, k);
        assert(s[block_start(bs, i) + k] == bs[i][k]);
    }
    assert(bs[i][0] == bs[i][0]);
}

/// What the reader parses from a written file: the writer's index, blocks
/// and bloom filter.
#[verifier::spinoff_prover]
#[verifier::rlimit(60)]
pub proof fn lemma_written_file(s: Seq<EntryView>, min: Timestamp, max: Timestamp)
    requires
        short_entries(s),
        sst_bytes(s, min, max).len() < 0x1_0000_0000_0000_0000,
    ensures
        sst_bytes(s, min, max).len() >= FOOTER_SIZE,
        index_of(sst_bytes(s, min, max)) == index_list(blocks_of(s)),
        forall|i: int|
            0 <= i < blocks_of(s).len() ==> #[trigger] block_entries(
                sst_bytes(s, min, max),
                index_of(sst_bytes(s, min, max)),
                i,
            ) == blocks_of(s)[i],
        bloom_of(sst_bytes(s, min, max)) == bloom_fill(keys_of(s), bloom_size(s.len())),
{
    let d = sst_bytes(s, min, max);
    let bs = blocks_of(s);
    let c = concat_blocks(bs);
    let ib = index_bytes(bs, min, max);
    let l = le32_bytes(BLOOM_HASH_COUNT as nat);
    let nb = bloom_size(s.len());
    let b = bloom_fill(keys_of(s), nb);
    let f = sst_footer(s, min, max);
    let body = sst_body(s, min, max);
    lemma_le32(BLOOM_HASH_COUNT as nat);
    lemma_bloom_fill_len(keys_of(s), nb);
    lemma_blocks_partition(s);
    assert(body == c + ib + l + b);
    lemma_footer_roundtrip(f, body);
    assert(d.len() == body.len() + FOOTER_SIZE);
    assert(footer_start(d) == body.len());
    assert(index_offset_of(d) == c.len());
    assert(bloom_offset_of(d) == c.len() + ib.len());
    // the index
    lemma_concat_blocks_take(bs, bs.len() as int);
    assert(bs.take(bs.len() as int) =~= bs);
    assert forall|i: int| 0 <= i < bs.len() implies (#[trigger] bs[i])[0].0.len() < 65536 by {
        lemma_block_entries_short(s, i);
    }
    assert forall|i: int| 0 <= i < bs.len() implies #[trigger] block_offset(bs, i) < 0x1_0000_0000_0000_0000 by {
        lemma_concat_blocks_take(bs, i);
    }
    let rest = l + b + footer_bytes(f);
    assert(d =~= c + ib + rest);
    lemma_parse_written_index(d, c, bs, min, max, rest, 0);
    assert(bs.take(0) =~= Seq::<Seq<EntryView>>::empty());
    assert(index_bytes(bs.take(0), min, max) =~= Seq::<u8>::empty());
    assert(index_list(bs).skip(0) =~= index_list(bs));
    // the blocks
    let idx = index_list(bs);
    assert(d.subrange(0, c.len() as int) =~= c);
    assert forall|i: int| 0 <= i < bs.len() implies #[trigger] block_entries(d, idx, i) == bs[i] by {
        lemma_written_block(d, s, i);
    }
    // the bloom filter
    assert(d.subrange((c.len() + ib.len() + 4) as int, body.len() as int) =~= b);
}

/// Block `i` of a file that starts with the written blocks reads back as written.
#[verifier::rlimit(40)]
#[verifier::spinoff_prover]
proof fn lemma_written_block(d: Seq<u8>, s: Seq<EntryView>, i: int)
    requires
        short_entries(s),
        0 <= i < blocks_of(s).len(),
        concat_blocks(blocks_of(s)).len() <= d.len(),
        d.subrange(0, concat_blocks(blocks_of(s)).len() as int) == concat_blocks(blocks_of(s)),
        index_offset_of(d) == concat_blocks(blocks_of(s)).len(),
    ensures
        block_entries(d, index_list(blocks_of(s)), i) == blocks_of(s)[i],
{
    let bs = blocks_of(s);
    let c = concat_blocks(bs);
    let idx = index_list(bs);
    lemma_block_entries_short(s, i);
    lemma_concat_blocks_take(bs, i);
    lemma_concat_blocks_take(bs, i + 1);
    lemma_concat_blocks_take(bs, bs.len() as int);
    assert(bs.take(bs.len() as int) =~= bs);
    let start = block_offset(bs, i);
    let end = block_offset(bs, i + 1);
    assert(idx[i].1 == start);
    if i + 1 < idx.len() {
        assert(idx[i + 1].1 == end);
    }
    let data = block_data(bs[i]);
    lemma_block_data_len(bs[i]);
    assert(end == start + data.len() + 4);
    let t = concat_blocks(bs.take(i + 1));
    assert(d.subrange(start as int, end - 4) =~= c.subrange(0, t.len() as int).subrange(start as int, end - 4));
    assert(t.subrange(start as int, end - 4) =~= data);
    lemma_block_roundtrip(bs[i]);
}

proof fn lemma_find_value(es: Seq<EntryView>, key: Seq<u8>, k: int)
    requires
        0 <= k < es.len(),
        es[k].0 == key,
        forall|m: int| 0 <= m < k ==> (#[trigger] es[m]).0 != key,
    ensures
        find_value(es, key) == Some(es[k].1),
    decreases k,
{
    if k > 0 {
        assert(es[0].0 != key);
        let t = es.drop_first();
        assert forall|m: int| 0 <= m < k - 1 implies (#[trigger] t[m]).0 != key by {
            assert(t[m] == es[m + 1]);
        }
        lemma_find_value(t, key, k - 1);
    }
}

proof fn lemma_find_value_none(es: Seq<EntryView>, key: Seq<u8>)
    requires
        forall|m: int| 0 <= m < es.len() ==> (#[trigger] es[m]).0 != key,
    ensures
        find_value(es, key) is None,
    decreases es.len(),
{
    if es.len() > 0 {
        assert(es[0].0 != key);
        let t = es.drop_first();
        assert forall|m: int| 0 <= m < t.len() implies (#[trigger] t[m]).0 != key by {
            assert(t[m] == es[m + 1]);
        }
        lemma_find_value_none(t, key);
    }
}

/// In sorted entries, the key at `i` is not above the key at `j` when `i <= j`.
proof fn lemma_sorted_not_above(s: Seq<EntryView>, i: int, j: int)
    requires
        sorted_keys(s),
        0 <= i <= j < s.len(),
    ensures
        !lex_lt(s[j].0, s[i].0),
{
    if i == j {
        lemma_lex_irreflexive(s[i].0);
    } else {
        lemma_lex_asymmetric(s[i].0, s[j].0);
    }
}

/// In sorted, partitioned entries the only block where a present key can be
/// found by bisection is the block that holds it.
#[verifier::spinoff_prover]
proof fn lemma_bisect_unique(s: Seq<EntryView>, bs: Seq<Seq<EntryView>>, j: int, b: int, c: int)
    requires
        sorted_keys(s),
        flatten(bs) == s,
        nonempty_blocks(bs),
        0 <= j < s.len(),
        0 <= b < bs.len(),
        block_start(bs, b) <= j < block_start(bs, b + 1),
        bisect_ok(index_list(bs), s[j].0, c),
    ensures
        c == b,
{
    let key = s[j].0;
    let idx = index_list(bs);
    let n = bs.len() as int;
    lemma_block_start_mono(bs, 0, n);
    assert(bs.take(n) =~= bs);
    if c < b {
        // the block after `c` starts at or before `j`
        let c1 = c + 1;
        lemma_block_start_mono(bs, c1, b);
        lemma_flatten_index(bs, c1, 0);
        assert(idx[c1].0 == s[block_start(bs, c1) as int].0);
        lemma_sorted_not_above(s, block_start(bs, c1) as int, j);
        assert(false);
    } else if c > b {
        lemma_block_start_mono(bs, b + 1, c);
        lemma_flatten_index(bs, c, 0);
        assert(idx[c].0 == s[block_start(bs, c) as int].0);
        assert(lex_lt(key, idx[c].0));
        assert(false);
    }
}

/// The file's index and blocks are `bs`.
pub open spec fn reads_as(d: Seq<u8>, bs: Seq<Seq<EntryView>>) -> bool {
    &&& index_of(d) == index_list(bs)
    &&& forall|i: int| 0 <= i < bs.len() ==> #[trigger] block_entries(d, index_of(d), i) == bs[i]
}

#[verifier::spinoff_prover]
#[verifier::rlimit(60)]
proof fn lemma_get_present(d: Seq<u8>, s: Seq<EntryView>, bs: Seq<Seq<EntryView>>, key: Seq<u8>, r: Option<Seq<u8>>, j: int)
    requires
        reads_as(d, bs),
        sorted_keys(s),
        flatten(bs) == s,
        nonempty_blocks(bs),
        0 <= j < s.len(),
        s[j].0 == key,
        bloom_ok(bloom_of(d), key),
        get_ok(d, key, r),
    ensures
        r == Some(s[j].1),
{
    let idx = index_list(bs);
    let b = lemma_block_of(bs, j);
    let c = choose|c: int| #[trigger] bisect_ok(index_of(d), key, c) && r == (if c < 0 {
        None
    } else {
        find_value(block_entries(d, index_of(d), c), key)
    });
    if c < 0 {
        lemma_flatten_index(bs, 0, 0);
        assert(bs.take(0) =~= Seq::<Seq<EntryView>>::empty());
        assert(idx[0].0 == s[0].0);
        lemma_sorted_not_above(s, 0, j);
        assert(false);
    }
    lemma_bisect_unique(s, bs, j, b, c);
    lemma_flatten_take(bs, b);
    let k = j - block_start(bs, b);
    lemma_flatten_index(bs, b, k);
    assert forall|m: int| 0 <= m < k implies (#[trigger] bs[b][m]).0 != key by {
        lemma_flatten_index(bs, b, m);
        assert(lex_lt(s[block_start(bs, b) + m].0, s[j].0));
        lemma_lex_irreflexive(key);
    }
    lemma_find_value(bs[b], key, k);
}

proof fn lemma_get_absent(d: Seq<u8>, s: Seq<EntryView>, bs: Seq<Seq<EntryView>>, key: Seq<u8>, r: Option<Seq<u8>>)
    requires
        reads_as(d, bs),
        flatten(bs) == s,
        !has_key(s, key),
        get_ok(d, key, r),
    ensures
        r is None,
{
    if bloom_ok(bloom_of(d), key) {
        let c = choose|c: int| #[trigger] bisect_ok(index_of(d), key, c) && r == (if c < 0 {
            None
        } else {
            find_value(block_entries(d, index_of(d), c), key)
        });
        if c >= 0 {
            assert forall|m: int| 0 <= m < bs[c].len() implies (#[trigger] bs[c][m]).0 != key by {
                lemma_flatten_index(bs, c, m);
                if bs[c][m].0 == key {
                    assert(s[block_start(bs, c) + m].0 == key);
                    assert(has_key(s, key));
                }
            }
            lemma_find_value_none(bs[c], key);
        }
    }
}

/// The bloom filter of a written file lets every written key through.
pub proof fn lemma_bloom_passes_written_keys(s: Seq<EntryView>, min: Timestamp, max: Timestamp, j: int)
    requires
        short_entries(s),
        sst_bytes(s, min, max).len() < 0x1_0000_0000_0000_0000,
        0 <= j < s.len(),
    ensures
        bloom_ok(bloom_of(sst_bytes(s, min, max)), s[j].0),
{
    lemma_written_file(s, min, max);
    assert(keys_of(s)[j] == s[j].0);
    lemma_bloom_fill_bits(keys_of(s), bloom_size(s.len()), j, 0);
}

/// A lookup in a file written from sorted entries gives the value written
/// under the key, and nothing for a key never written.
#[verifier::spinoff_prover]
pub proof fn lemma_sst_get_after_write(
    s: Seq<EntryView>,
    min: Timestamp,
    max: Timestamp,
    key: Seq<u8>,
    r: Option<Seq<u8>>,
)
    requires
        sorted_keys(s),
        short_entries(s),
        sst_bytes(s, min, max).len() < 0x1_0000_0000_0000_0000,
        get_ok(sst_bytes(s, min, max), key, r),
    ensures
        r == (if entries_map(s).contains_key(key) {
            Some(entries_map(s)[key])
        } else {
            None
        }),
{
    let d = sst_bytes(s, min, max);
    let bs = blocks_of(s);
    lemma_written_file(s, min, max);
    lemma_blocks_partition(s);
    assert(reads_as(d, bs));
    if has_key(s, key) {
        let j = key_index(s, key);
        lemma_map_of_sorted(s, j);
        let nb = bloom_size(s.len());
        assert(keys_of(s)[j] == key);
        lemma_bloom_fill_bits(keys_of(s), nb, j, 0);
        assert(bloom_ok(bloom_of(d), key));
        lemma_get_present(d, s, bs, key, r, j);
    } else {
        lemma_get_absent(d, s, bs, key, r);
    }
}

/// The entries whose key starts with `prefix`, in order.
pub open spec fn with_prefix(s: Seq<EntryView>, prefix: Seq<u8>) -> Seq<EntryView>
    decreases s.len(),
{
    if s.len() == 0 {
        Seq::empty()
    } else if is_prefix(prefix, s[0].0) {
        seq![s[0]] + with_prefix(s.drop_first(), prefix)
    } else {
        with_prefix(s.drop_first(), prefix)
    }
}

proof fn lemma_with_prefix_concat(a: Seq<EntryView>, b: Seq<EntryView>, prefix: Seq<u8>)
    ensures
        with_prefix(a + b, prefix) == with_prefix(a, prefix) + with_prefix(b, prefix),
    decreases a.len(),
{
    if a.len() == 0 {
        assert(a + b =~= b);
        assert(with_prefix(a, prefix) + with_prefix(b, prefix) =~= with_prefix(b, prefix));
    } else {
        assert((a + b).drop_first() =~= a.drop_first() + b);
        assert((a + b)[0] == a[0]);
        lemma_with_prefix_concat(a.drop_first(), b, prefix);
        if is_prefix(prefix, a[0].0) {
            assert(seq![a[0]] + (with_prefix(a.drop_first(), prefix) + with_prefix(b, prefix)) =~= (seq![a[0]]
                + with_prefix(a.drop_first(), prefix)) + with_prefix(b, prefix));
        }
    }
}

proof fn lemma_with_prefix_none(t: Seq<EntryView>, prefix: Seq<u8>)
    requires
        forall|m: int| 0 <= m < t.len() ==> !is_prefix(prefix, (#[trigger] t[m]).0),
    ensures
        with_prefix(t, prefix) == Seq::<EntryView>::empty(),
    decreases t.len(),
{
    if t.len() > 0 {
        let u = t.drop_first();
        assert forall|m: int| 0 <= m < u.len() implies !is_prefix(prefix, (#[trigger] u[m]).0) by {
            assert(u[m] == t[m + 1]);
        }
        lemma_with_prefix_none(u, prefix);
        assert(!is_prefix(prefix, t[0].0));
    }
}

/// A scan of two runs of entries: the first, then the second unless the
/// scan stopped in the first.
proof fn lemma_scan_entries_concat(prefix: Seq<u8>, a: Seq<EntryView>, b: Seq<EntryView>)
    ensures
        scan_entries(prefix, a + b) == (if scan_entries(prefix, a).1 {
            scan_entries(prefix, a)
        } else {
            (scan_entries(prefix, a).0 + scan_entries(prefix, b).0, scan_entries(prefix, b).1)
        }),
    decreases a.len(),
{
    if a.len() == 0 {
        assert(a + b =~= b);
        assert(Seq::<EntryView>::empty() + scan_entries(prefix, b).0 =~= scan_entries(prefix, b).0);
    } else {
        assert((a + b).drop_first() =~= a.drop_first() + b);
        assert((a + b)[0] == a[0]);
        lemma_scan_entries_concat(prefix, a.drop_first(), b);
        let (r1, st1) = scan_entries(prefix, a.drop_first());
        if is_prefix(prefix, a[0].0) && !st1 {
            assert(seq![a[0]] + (r1 + scan_entries(prefix, b).0) =~= (seq![a[0]] + r1) + scan_entries(prefix, b).0);
        }
    }
}

proof fn lemma_sorted_skip(s: Seq<EntryView>, k: int)
    requires
        sorted_keys(s),
        0 <= k <= s.len(),
    ensures
        sorted_keys(s.skip(k)),
{
    let t = s.skip(k);
    assert forall|i: int, j: int| 0 <= i < j < t.len() implies lex_lt(#[trigger] t[i].0, #[trigger] t[j].0) by {
        assert(t[i] == s[k + i]);
        assert(t[j] == s[k + j]);
    }
}

/// Scanning sorted entries collects exactly those with the prefix.
proof fn lemma_scan_sorted(prefix: Seq<u8>, t: Seq<EntryView>)
    requires
        sorted_keys(t),
    ensures
        scan_entries(prefix, t).0 == with_prefix(t, prefix),
    decreases t.len(),
{
    if t.len() > 0 {
        let u = t.drop_first();
        lemma_sorted_skip(t, 1);
        assert(t.skip(1) =~= u);
        lemma_scan_sorted(prefix, u);
        lemma_prefix_range(prefix, t[0].0);
        if !is_prefix(prefix, t[0].0) && past_prefix(prefix, t[0].0) {
            let sc = successor(prefix).unwrap();
            assert forall|m: int| 0 <= m < u.len() implies !is_prefix(prefix, (#[trigger] u[m]).0) by {
                assert(u[m] == t[m + 1]);
                lemma_prefix_range(prefix, u[m].0);
                assert(lex_lt(t[0].0, u[m].0));
                if lex_lt(u[m].0, sc) {
                    lemma_lex_transitive(t[0].0, u[m].0, sc);
                }
            }
            lemma_with_prefix_none(u, prefix);
        }
    }
}

/// The entries from block `i` on are block `i`, then those from block `i + 1` on.
proof fn lemma_skip_block(s: Seq<EntryView>, bs: Seq<Seq<EntryView>>, i: int)
    requires
        flatten(bs) == s,
        0 <= i < bs.len(),
    ensures
        block_start(bs, i + 1) <= s.len(),
        s.skip(block_start(bs, i) as int) == bs[i] + s.skip(block_start(bs, i + 1) as int),
{
    lemma_flatten_take(bs, i);
    lemma_flatten_prefix(bs, i + 1);
    let a = block_start(bs, i) as int;
    let b = block_start(bs, i + 1) as int;
    assert forall|m: int| 0 <= m < bs[i].len() implies s.skip(a)[m] == bs[i][m] by {
        lemma_flatten_index(bs, i, m);
    }
    assert(s.skip(a) =~= bs[i] + s.skip(b));
}

/// A scan over the blocks of a file that reads as `bs` is a scan over the
/// entries from the first block scanned on.
#[verifier::spinoff_prover]
proof fn lemma_scan_blocks_flat(d: Seq<u8>, s: Seq<EntryView>, bs: Seq<Seq<EntryView>>, prefix: Seq<u8>, i: int, start: int)
    requires
        reads_as(d, bs),
        flatten(bs) == s,
        nonempty_blocks(bs),
        0 <= start <= i <= bs.len(),
    ensures
        scan_blocks(d, index_of(d), prefix, i, start) == scan_entries(prefix, s.skip(block_start(bs, i) as int)).0,
    decreases bs.len() - i,
{
    let idx = index_of(d);
    let n = bs.len() as int;
    if i == n {
        assert(bs.take(n) =~= bs);
        assert(s.skip(block_start(bs, i) as int) =~= Seq::<EntryView>::empty());
    } else {
        lemma_skip_block(s, bs, i);
        lemma_scan_blocks_flat(d, s, bs, prefix, i + 1, start);
        let t = s.skip(block_start(bs, i) as int);
        let rest = s.skip(block_start(bs, i + 1) as int);
        assert(idx[i].0 == bs[i][0].0);
        if i > start && past_prefix(prefix, idx[i].0) {
            assert(t[0] == bs[i][0]);
            lemma_prefix_range(prefix, t[0].0);
        } else {
            assert(block_entries(d, idx, i) == bs[i]);
            lemma_scan_entries_concat(prefix, bs[i], rest);
        }
    }
}

/// No entry before the block where a scan starts has the prefix.
#[verifier::spinoff_prover]
proof fn lemma_nothing_before_start(s: Seq<EntryView>, bs: Seq<Seq<EntryView>>, d: Seq<u8>, prefix: Seq<u8>, c: int)
    requires
        sorted_keys(s),
        reads_as(d, bs),
        flatten(bs) == s,
        nonempty_blocks(bs),
        bisect_ok(index_of(d), prefix, c),
    ensures
        ({
            let k = block_start(bs, scan_start(c)) as int;
            &&& k <= s.len()
            &&& forall|m: int| 0 <= m < s.take(k).len() ==> !is_prefix(prefix, (#[trigger] s.take(k)[m]).0)
        }),
{
    let st: int = if c < 0 {
        0
    } else {
        c
    };
    let k = block_start(bs, st) as int;
    let idx = index_of(d);
    lemma_flatten_prefix(bs, st);
    assert(bs.take(bs.len() as int) =~= bs);
    assert forall|m: int| 0 <= m < s.take(k).len() implies !is_prefix(prefix, (#[trigger] s.take(k)[m]).0) by {
        if c > 0 {
            lemma_flatten_index(bs, c, 0);
            let first = s[k].0;
            assert(idx[c].0 == first);
            assert(lex_lt(s[m].0, first));
            lemma_lex_total(first, prefix);
            if lex_lt(first, prefix) {
                lemma_lex_transitive(s[m].0, first, prefix);
            }
            lemma_prefix_range(prefix, s[m].0);
        } else {
            assert(bs.take(0) =~= Seq::<Seq<EntryView>>::empty());
        }
    }
}

/// A scan that starts where bisection points gives the entries with the prefix.
#[verifier::spinoff_prover]
proof fn lemma_scan_from(d: Seq<u8>, s: Seq<EntryView>, bs: Seq<Seq<EntryView>>, prefix: Seq<u8>, c: int)
    requires
        sorted_keys(s),
        reads_as(d, bs),
        flatten(bs) == s,
        nonempty_blocks(bs),
        bisect_ok(index_of(d), prefix, c),
    ensures
        scan_blocks(d, index_of(d), prefix, scan_start(c), scan_start(c)) == with_prefix(s, prefix),
{
    let st = scan_start(c);
    lemma_scan_blocks_flat(d, s, bs, prefix, st, st);
    let k = block_start(bs, st) as int;
    lemma_nothing_before_start(s, bs, d, prefix, c);
    lemma_sorted_skip(s, k);
    lemma_scan_sorted(prefix, s.skip(k));
    assert(s =~= s.take(k) + s.skip(k));
    lemma_with_prefix_concat(s.take(k), s.skip(k), prefix);
    lemma_with_prefix_none(s.take(k), prefix);
    assert(with_prefix(s, prefix) =~= with_prefix(s.skip(k), prefix));
}

/// A prefix scan of a file written from sorted entries gives exactly the
/// entries whose key starts with the prefix, in key order.
#[verifier::spinoff_prover]
pub proof fn lemma_sst_scan_after_write(
    s: Seq<EntryView>,
    min: Timestamp,
    max: Timestamp,
    prefix: Seq<u8>,
    r: Seq<EntryView>,
)
    requires
        sorted_keys(s),
        short_entries(s),
        sst_bytes(s, min, max).len() < 0x1_0000_0000_0000_0000,
        scan_ok(sst_bytes(s, min, max), prefix, r),
    ensures
        r == with_prefix(s, prefix),
{
    let d = sst_bytes(s, min, max);
    let bs = blocks_of(s);
    lemma_written_file(s, min, max);
    lemma_blocks_partition(s);
    assert(reads_as(d, bs));
    let c = choose|c: int|
        #[trigger] bisect_ok(index_of(d), prefix, c) && r == scan_blocks(d, index_of(d), prefix, scan_start(c), scan_start(c));
    lemma_scan_from(d, s, bs, prefix, c);
}

} // verus!
