//! Length-prefixed variable integers: one byte holding the number of
//! significant bytes, then those bytes, most significant first.
use crate::bytes::{
    be_seq, be_value, lemma_be_seq_len, lemma_be_seq_order, lemma_be_value_bound, lemma_be_value_of_seq,
    lemma_lex_common_prefix, lemma_lex_first_difference, lemma_pow256_mono, lex_lt, pow256,
};
use vstd::prelude::*;

verus! {

/// Number of significant bytes of `v` (zero has none).
pub open spec fn sig_len(v: nat) -> nat
    decreases v,
{
    if v == 0 {
        0
    } else {
        1 + sig_len(v / 256)
    }
}

/// The bytes that `write` appends for `v`.
pub open spec fn varint_encoding(v: nat) -> Seq<u8> {
    seq![sig_len(v) as u8] + be_seq(v, sig_len(v))
}

/// What `read_from` gives for a type of `width` bytes: the value and the
/// number of bytes it took, or nothing when the length byte is larger than the
/// type or the input is shorter than the length byte announces.
pub open spec fn varint_decode(bytes: Seq<u8>, width: nat) -> Option<(nat, nat)> {
    if bytes.len() == 0 {
        None
    } else {
        let n = bytes[0] as nat;
        if n > width || bytes.len() < n + 1 {
            None
        } else {
            Some((be_value(bytes.subrange(1, (n + 1) as int)), n + 1))
        }
    }
}

pub proof fn lemma_pow256_16()
    ensures
        pow256(16) == 0x1_0000_0000_0000_0000_0000_0000_0000_0000,
        pow256(8) == 0x1_0000_0000_0000_0000,
        pow256(4) == 0x1_0000_0000,
        pow256(2) == 0x1_0000,
{
    reveal_with_fuel(pow256, 17);
}

/// `v` fits in `k` bytes exactly when it has at most `k` significant bytes.
pub proof fn lemma_sig_len_fits(v: nat, k: nat)
    ensures
        (sig_len(v) <= k) == (v < pow256(k)),
    decreases k,
{
    if k > 0 {
        lemma_sig_len_fits(v / 256, (k - 1) as nat);
    } else if v > 0 {
        assert(sig_len(v) == 1 + sig_len(v / 256));
    }
}

pub proof fn lemma_sig_len_mono(x: nat, y: nat)
    requires
        x <= y,
    ensures
        sig_len(x) <= sig_len(y),
    decreases y,
{
    if x > 0 {
        lemma_sig_len_mono(x / 256, y / 256);
    }
}

pub proof fn lemma_sig_len_small(v: nat)
    requires
        v < pow256(16),
    ensures
        sig_len(v) <= 16,
{
    lemma_sig_len_fits(v, 16);
}

pub proof fn lemma_encoding_len(v: nat)
    requires
        v < pow256(16),
    ensures
        varint_encoding(v).len() == sig_len(v) + 1,
        varint_encoding(v)[0] == sig_len(v),
{
    lemma_sig_len_small(v);
    lemma_be_seq_len(v, sig_len(v));
}

/// Reading what was written for `v`, followed by anything, gives `v` back
/// and the length of its encoding, whenever `v` fits the type.
pub proof fn lemma_varint_roundtrip(v: nat, width: nat, rest: Seq<u8>)
    requires
        v < pow256(width),
        width <= 16,
    ensures
        varint_decode(varint_encoding(v) + rest, width) == Some((v, sig_len(v) + 1)),
{
    lemma_pow256_mono(width, 16);
    lemma_sig_len_fits(v, width);
    lemma_encoding_len(v);
    let e = varint_encoding(v) + rest;
    let n = sig_len(v);
    assert(e.subrange(1, (n + 1) as int) =~= be_seq(v, n));
    lemma_sig_len_fits(v, n);
    lemma_be_value_of_seq(v, n);
}

/// A strict prefix of an encoding is refused: the input is shorter than its
/// length byte announces.
pub proof fn lemma_varint_strict_prefix(v: nat, width: nat, x: Seq<u8>)
    requires
        v < pow256(16),
        x.len() < varint_encoding(v).len(),
        x == varint_encoding(v).subrange(0, x.len() as int),
    ensures
        varint_decode(x, width) is None,
{
    lemma_encoding_len(v);
    if x.len() > 0 {
        assert(x[0] == varint_encoding(v)[0]);
    }
}

/// What a successful read gives: a value that fits the type, and a length of
/// at least one byte and at most the input.
pub proof fn lemma_varint_decode_facts(bytes: Seq<u8>, width: nat)
    requires
        varint_decode(bytes, width) is Some,
    ensures
        varint_decode(bytes, width).unwrap().0 < pow256(width),
        1 <= varint_decode(bytes, width).unwrap().1 <= bytes.len(),
        varint_decode(bytes, width).unwrap().1 <= width + 1,
{
    let n = bytes[0] as nat;
    lemma_be_value_bound(bytes.subrange(1, (n + 1) as int));
    lemma_pow256_mono(n, width);
}

/// A value too wide for the type is refused when read back.
pub proof fn lemma_varint_too_wide(v: nat, width: nat, rest: Seq<u8>)
    requires
        pow256(width) <= v,
        v < pow256(16),
    ensures
        varint_decode(varint_encoding(v) + rest, width) is None,
{
    lemma_sig_len_fits(v, width);
    lemma_encoding_len(v);
}

/// Encodings of distinct values compare as the values do, whatever follows them.
pub proof fn lemma_varint_order(x: nat, y: nat, a: Seq<u8>, b: Seq<u8>)
    requires
        x != y,
        x < pow256(16),
        y < pow256(16),
    ensures
        lex_lt(varint_encoding(x) + a, varint_encoding(y) + b) == (x < y),
{
    lemma_sig_len_small(x);
    lemma_sig_len_small(y);
    let nx = sig_len(x);
    let ny = sig_len(y);
    let ex = varint_encoding(x) + a;
    let ey = varint_encoding(y) + b;
    assert(ex =~= Seq::<u8>::empty() + seq![nx as u8] + (be_seq(x, nx) + a));
    assert(ey =~= Seq::<u8>::empty() + seq![ny as u8] + (be_seq(y, ny) + b));
    if nx != ny {
        lemma_lex_first_difference(Seq::empty(), nx as u8, ny as u8, be_seq(x, nx) + a, be_seq(y, ny) + b);
        if x < y {
            lemma_sig_len_mono(x, y);
        } else {
            lemma_sig_len_mono(y, x);
        }
    } else {
        lemma_sig_len_fits(x, nx);
        lemma_sig_len_fits(y, nx);
        lemma_be_seq_order(x, y, nx, a, b);
        lemma_lex_common_prefix(seq![nx as u8], be_seq(x, nx) + a, be_seq(y, ny) + b);
        assert(ex =~= seq![nx as u8] + (be_seq(x, nx) + a));
        assert(ey =~= seq![nx as u8] + (be_seq(y, ny) + b));
    }
}

/// Appends the encoding of `v` to `out`.
pub fn write_varint(v: u128, out: &mut Vec<u8>)
    ensures
        final(out)@ == old(out)@ + varint_encoding(v as nat),
{
    let mut digits: Vec<u8> = Vec::new();
    let mut x: u128 = v;
    proof {
        lemma_pow256_16();
        lemma_sig_len_small(v as nat);
        lemma_sig_len_mono(0, v as nat);
    }
    while x > 0
        invariant
            be_seq(v as nat, sig_len(v as nat)) == be_seq(x as nat, sig_len(x as nat)) + digits@,
            digits.len() + sig_len(x as nat) == sig_len(v as nat),
            sig_len(v as nat) <= 16,
        decreases x,
    {
        let ghost old_digits = digits@;
        let d: u8 = (x % 256) as u8;
        digits.insert(0, d);
        proof {
            assert(be_seq(x as nat, sig_len(x as nat)) =~= be_seq((x / 256) as nat, sig_len((x / 256) as nat)).push(d));
            assert(be_seq((x / 256) as nat, sig_len((x / 256) as nat)).push(d) + old_digits
                =~= be_seq((x / 256) as nat, sig_len((x / 256) as nat)) + digits@);
        }
        x = x / 256;
    }
    proof {
        assert(be_seq(0, 0) =~= Seq::<u8>::empty());
        assert(Seq::<u8>::empty() + digits@ =~= digits@);
    }
    let n: u8 = digits.len() as u8;
    out.push(n);
    let mut i: usize = 0;
    let ghost start = old(out)@.push(n);
    while i < digits.len()
        invariant
            i <= digits.len(),
            out@ == start + digits@.subrange(0, i as int),
        decreases digits.len() - i,
    {
        out.push(digits[i]);
        proof {
            assert(digits@.subrange(0, i + 1) =~= digits@.subrange(0, i as int).push(digits@[i as int]));
        }
        i = i + 1;
    }
    proof {
        assert(digits@.subrange(0, digits.len() as int) =~= digits@);
        assert(old(out)@.push(n) + digits@ =~= old(out)@ + varint_encoding(v as nat));
    }
}

/// Reads an encoded value for a type of `width` bytes from the front of `bytes`.
pub fn read_varint(bytes: &[u8], width: usize) -> (r: Option<(u128, usize)>)
    requires
        width <= 16,
    ensures
        match r {
            Some((v, n)) => varint_decode(bytes@, width as nat) == Some((v as nat, n as nat))
                && v < pow256(width as nat),
            None => varint_decode(bytes@, width as nat) is None,
        },
{
    if bytes.len() == 0 {
        return None;
    }
    let n = bytes[0] as usize;
    if n > width || bytes.len() - 1 < n {
        return None;
    }
    let mut acc: u128 = 0;
    let mut i: usize = 1;
    proof {
        lemma_pow256_16();
        lemma_pow256_mono(width as nat, 16);
        assert(bytes@.subrange(1, 1) =~= Seq::<u8>::empty());
    }
    while i < n + 1
        invariant
            1 <= i <= n + 1,
            n + 1 <= bytes.len(),
            n <= width <= 16,
            pow256(width as nat) <= pow256(16),
            pow256(16) == 0x1_0000_0000_0000_0000_0000_0000_0000_0000,
            acc as nat == be_value(bytes@.subrange(1, i as int)),
        decreases n + 1 - i,
    {
        let ghost prev = bytes@.subrange(1, i as int);
        let ghost next = bytes@.subrange(1, i + 1);
        proof {
            assert(next.drop_last() =~= prev);
            lemma_be_value_bound(next);
            lemma_pow256_mono(next.len(), 16);
        }
        acc = acc * 256 + bytes[i] as u128;
        i = i + 1;
    }
    proof {
        lemma_be_value_bound(bytes@.subrange(1, n + 1));
        lemma_pow256_mono(n as nat, width as nat);
    }
    Some((acc, n + 1))
}

/// Length-prefixed variable integer encoding.
pub trait VarInt: Sized {
    /// Reads a value from the front of `bytes`, with the number of bytes read.
    fn read_from(bytes: &[u8]) -> Option<(Self, usize)>;

    /// Appends the encoding of the value.
    fn write(&self, w: &mut Vec<u8>);
}

impl VarInt for u16 {
    fn read_from(bytes: &[u8]) -> (r: Option<(u16, usize)>)
        ensures
            match r {
                Some((v, n)) => varint_decode(bytes@, 2) == Some((v as nat, n as nat)),
                None => varint_decode(bytes@, 2) is None,
            },
    {
        proof { lemma_pow256_16(); }
        match read_varint(bytes, 2) {
            Some((v, n)) => Some((v as u16, n)),
            None => None,
        }
    }

    fn write(&self, w: &mut Vec<u8>)
        ensures
            final(w)@ == old(w)@ + varint_encoding(*self as nat),
    {
        write_varint(*self as u128, w);
    }
}

impl VarInt for u32 {
    fn read_from(bytes: &[u8]) -> (r: Option<(u32, usize)>)
        ensures
            match r {
                Some((v, n)) => varint_decode(bytes@, 4) == Some((v as nat, n as nat)),
                None => varint_decode(bytes@, 4) is None,
            },
    {
        proof { lemma_pow256_16(); }
        match read_varint(bytes, 4) {
            Some((v, n)) => Some((v as u32, n)),
            None => None,
        }
    }

    fn write(&self, w: &mut Vec<u8>)
        ensures
            final(w)@ == old(w)@ + varint_encoding(*self as nat),
    {
        write_varint(*self as u128, w);
    }
}

impl VarInt for u64 {
    fn read_from(bytes: &[u8]) -> (r: Option<(u64, usize)>)
        ensures
            match r {
                Some((v, n)) => varint_decode(bytes@, 8) == Some((v as nat, n as nat)),
                None => varint_decode(bytes@, 8) is None,
            },
    {
        proof { lemma_pow256_16(); }
        match read_varint(bytes, 8) {
            Some((v, n)) => Some((v as u64, n)),
            None => None,
        }
    }

    fn write(&self, w: &mut Vec<u8>)
        ensures
            final(w)@ == old(w)@ + varint_encoding(*self as nat),
    {
        write_varint(*self as u128, w);
    }
}

impl VarInt for u128 {
    fn read_from(bytes: &[u8]) -> (r: Option<(u128, usize)>)
        ensures
            match r {
                Some((v, n)) => varint_decode(bytes@, 16) == Some((v as nat, n as nat)),
                None => varint_decode(bytes@, 16) is None,
            },
    {
        read_varint(bytes, 16)
    }

    fn write(&self, w: &mut Vec<u8>)
        ensures
            final(w)@ == old(w)@ + varint_encoding(*self as nat),
    {
        write_varint(*self, w);
    }
}

} // verus!
