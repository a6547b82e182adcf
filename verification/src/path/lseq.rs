//! Fractional indices of the non-interleaving LSeq: a sequence of segments,
//! each a peer id and a sequence number, encoded as two variable integers.
//! Indices sort as their bytes do, and a new index can always be made that
//! sorts strictly between two others.
use crate::bytes::{lemma_lex_common_prefix, lex_lt};
use crate::pid::PID;
use crate::varint::{
    lemma_encoding_len, lemma_pow256_16, lemma_varint_decode_facts, lemma_varint_order,
    lemma_varint_roundtrip, lemma_varint_strict_prefix, varint_decode, varint_encoding, VarInt,
};
use vstd::prelude::*;

verus! {

/// A segment as a plain value: peer id, then sequence number.
pub type SegmentView = (u32, u32);

/// Segment order: by peer id, then by sequence number.
pub open spec fn seg_lt(a: SegmentView, b: SegmentView) -> bool {
    a.0 < b.0 || (a.0 == b.0 && a.1 < b.1)
}

/// Lexicographic order on segment sequences; a proper prefix sorts first.
pub open spec fn segs_lt(a: Seq<SegmentView>, b: Seq<SegmentView>) -> bool
    decreases a.len(),
{
    if a.len() == 0 {
        b.len() > 0
    } else if b.len() == 0 {
        false
    } else if seg_lt(a[0], b[0]) {
        true
    } else if a[0] == b[0] {
        segs_lt(a.drop_first(), b.drop_first())
    } else {
        false
    }
}

/// The bytes of one segment.
pub open spec fn seg_encoding(s: SegmentView) -> Seq<u8> {
    varint_encoding(s.0 as nat) + varint_encoding(s.1 as nat)
}

/// The bytes of a sequence of segments.
pub open spec fn segs_encoding(a: Seq<SegmentView>) -> Seq<u8>
    decreases a.len(),
{
    if a.len() == 0 {
        Seq::empty()
    } else {
        seg_encoding(a[0]) + segs_encoding(a.drop_first())
    }
}

/// Every segment names a peer (peer ids are never zero).
pub open spec fn all_peers(a: Seq<SegmentView>) -> bool {
    forall|i: int| 0 <= i < a.len() ==> #[trigger] a[i].0 != 0
}

/// The segment at the front of `b` and the number of bytes it takes; a zero
/// peer id, or a missing number, ends the parse.
pub open spec fn parse_segment(b: Seq<u8>) -> Option<(SegmentView, nat)> {
    match varint_decode(b, 4) {
        None => None,
        Some((p, n1)) => if p == 0 {
            None
        } else {
            match varint_decode(b.subrange(n1 as int, b.len() as int), 4) {
                None => None,
                Some((s, n2)) => Some(((p as u32, s as u32), n1 + n2)),
            }
        },
    }
}

/// The segments read from the front of `b` until a segment fails to parse.
pub open spec fn parse_segments(b: Seq<u8>) -> Seq<SegmentView>
    decreases b.len(),
{
    match parse_segment(b) {
        None => Seq::empty(),
        Some((s, n)) => if 0 < n <= b.len() {
            seq![s] + parse_segments(b.subrange(n as int, b.len() as int))
        } else {
            Seq::empty()
        },
    }
}

/// A well-formed index is exactly the encoding of the segments it parses to.
pub open spec fn index_well_formed(b: Seq<u8>) -> bool {
    segs_encoding(parse_segments(b)) == b
}

/// How many bytes at the front of `b` form an index, as `from_bytes` reads
/// it: segments are read until a peer id fails to parse or is zero; a peer id
/// without a sequence number spoils the whole index.
pub open spec fn index_prefix_len(b: Seq<u8>) -> Option<nat>
    decreases b.len(),
{
    if b.len() == 0 {
        Some(0)
    } else {
        match varint_decode(b, 4) {
            None => Some(0),
            Some((p, n1)) => if p == 0 {
                Some(0)
            } else {
                match varint_decode(b.subrange(n1 as int, b.len() as int), 4) {
                    None => None,
                    Some((s, n2)) => if 0 < n1 + n2 <= b.len() {
                        match index_prefix_len(b.subrange((n1 + n2) as int, b.len() as int)) {
                            None => None,
                            Some(k) => Some(n1 + n2 + k),
                        }
                    } else {
                        None
                    },
                }
            },
        }
    }
}

/// What the generator writes below the upper bound `h` when the lower bound
/// is used up.
pub open spec fn below_bound(h: SegmentView, p: u32) -> Seq<SegmentView> {
    if seg_lt((p, 1), h) {
        seq![(p, 1u32)]
    } else if seg_lt((p, 0), h) {
        seq![(p, 0u32)]
    } else if h.1 > 0 {
        seq![(h.0, (h.1 - 1) as u32)]
    } else if h.0 > 1 {
        seq![((h.0 - 1) as u32, u32::MAX)]
    } else {
        seq![h]
    }
}

/// The segments that peer `p` generates above `lo` and, while `hi` is
/// `Some`, below `hi` (an empty or absent upper bound is unbounded).
/// Segments equal in both bounds are copied; where the bounds part, the
/// peer's own next number is used when it fits, else the lower segment is
/// copied and the upper bound is left behind.
pub open spec fn between_rec(lo: Seq<SegmentView>, hi: Option<Seq<SegmentView>>, p: u32) -> Seq<
    SegmentView,
>
    decreases lo.len(),
{
    if hi is Some && hi.unwrap().len() > 0 {
        let hs = hi.unwrap();
        let h = hs[0];
        if lo.len() > 0 {
            let l = lo[0];
            if l == h {
                seq![l] + between_rec(lo.drop_first(), Some(hs.drop_first()), p)
            } else if l.0 == p && l.1 < u32::MAX && seg_lt((p, (l.1 + 1) as u32), h) {
                seq![(p, (l.1 + 1) as u32)]
            } else {
                seq![l] + between_rec(lo.drop_first(), None, p)
            }
        } else {
            below_bound(h, p)
        }
    } else {
        if lo.len() > 0 {
            let l = lo[0];
            if l.1 < u32::MAX && p >= l.0 {
                seq![(p, (l.1 + 1) as u32)]
            } else {
                seq![l] + between_rec(lo.drop_first(), None, p)
            }
        } else {
            seq![(p, 1u32)]
        }
    }
}

/// The index peer `p` generates between the indices `lo` and `hi` (an empty
/// `hi` is unbounded).
pub open spec fn between_index(lo: Seq<u8>, hi: Seq<u8>, p: u32) -> Seq<u8> {
    segs_encoding(between_rec(parse_segments(lo), Some(parse_segments(hi)), p))
}

/// Whether an index strictly between `lo` and `hi` exists: `lo` sorts below
/// `hi` (or `hi` is empty), and `hi` is not `lo` followed by the smallest
/// segment, below which nothing sorts.
pub open spec fn between_possible(lo: Seq<u8>, hi: Seq<u8>) -> bool {
    hi.len() == 0 || (lex_lt(lo, hi) && hi != lo + seg_encoding((1u32, 0u32)))
}

// ---------------------------------------------------------------------------
// Lemmas on the encoding.

pub proof fn lemma_seg_encoding_len(s: SegmentView)
    ensures
        seg_encoding(s).len() >= 2,
{
    lemma_pow256_16();
    lemma_encoding_len(s.0 as nat);
    lemma_encoding_len(s.1 as nat);
}

pub proof fn lemma_segs_encoding_push(a: Seq<SegmentView>, s: SegmentView)
    ensures
        segs_encoding(a.push(s)) == segs_encoding(a) + seg_encoding(s),
    decreases a.len(),
{
    if a.len() == 0 {
        let b = a.push(s);
        assert(b[0] == s);
        assert(b.drop_first() =~= Seq::<SegmentView>::empty());
        assert(segs_encoding(b.drop_first()) == Seq::<u8>::empty());
        assert(segs_encoding(b) == seg_encoding(s) + Seq::<u8>::empty());
        assert(segs_encoding(b) =~= segs_encoding(a) + seg_encoding(s));
    } else {
        assert(a.push(s).drop_first() =~= a.drop_first().push(s));
        lemma_segs_encoding_push(a.drop_first(), s);
        assert(segs_encoding(a.push(s)) =~= segs_encoding(a) + seg_encoding(s));
    }
}

pub proof fn lemma_segs_encoding_concat(a: Seq<SegmentView>, b: Seq<SegmentView>)
    ensures
        segs_encoding(a + b) == segs_encoding(a) + segs_encoding(b),
    decreases a.len(),
{
    if a.len() == 0 {
        assert(a + b =~= b);
        assert(segs_encoding(a) + segs_encoding(b) =~= segs_encoding(b));
    } else {
        assert((a + b).drop_first() =~= a.drop_first() + b);
        lemma_segs_encoding_concat(a.drop_first(), b);
        assert(segs_encoding(a + b) =~= segs_encoding(a) + segs_encoding(b));
    }
}

/// The segment written at the front of any bytes is read back.
pub proof fn lemma_parse_segment_roundtrip(s: SegmentView, rest: Seq<u8>)
    requires
        s.0 != 0,
    ensures
        parse_segment(seg_encoding(s) + rest) == Some((s, seg_encoding(s).len())),
{
    lemma_pow256_16();
    let e1 = varint_encoding(s.0 as nat);
    let e2 = varint_encoding(s.1 as nat);
    let b = seg_encoding(s) + rest;
    assert(b =~= e1 + (e2 + rest));
    lemma_varint_roundtrip(s.0 as nat, 4, e2 + rest);
    lemma_encoding_len(s.0 as nat);
    lemma_encoding_len(s.1 as nat);
    assert(b.subrange(e1.len() as int, b.len() as int) =~= e2 + rest);
    lemma_varint_roundtrip(s.1 as nat, 4, rest);
}

/// No strict prefix of a segment's bytes reads as a segment, and a peer id
/// of zero is refused.
pub proof fn lemma_parse_segment_refuses(s: SegmentView, x: Seq<u8>)
    requires
        x.len() < seg_encoding(s).len(),
        x == seg_encoding(s).subrange(0, x.len() as int),
    ensures
        parse_segment(x) is None,
        s.0 == 0 ==> parse_segment(seg_encoding(s)) is None,
{
    lemma_pow256_16();
    let e1 = varint_encoding(s.0 as nat);
    let e2 = varint_encoding(s.1 as nat);
    lemma_encoding_len(s.0 as nat);
    lemma_encoding_len(s.1 as nat);
    if x.len() < e1.len() {
        assert(x =~= e1.subrange(0, x.len() as int));
        lemma_varint_strict_prefix(s.0 as nat, 4, x);
    } else {
        let tail = x.subrange(e1.len() as int, x.len() as int);
        assert(x =~= e1 + tail);
        lemma_varint_roundtrip(s.0 as nat, 4, tail);
        if s.0 != 0 {
            assert(tail =~= e2.subrange(0, tail.len() as int));
            lemma_varint_strict_prefix(s.1 as nat, 4, tail);
            assert(x.subrange(e1.len() as int, x.len() as int) =~= tail);
        }
    }
    assert(seg_encoding(s) =~= e1 + e2);
    lemma_varint_roundtrip(s.0 as nat, 4, e2);
}

/// Segments written one after another are read back, and nothing more.
pub proof fn lemma_parse_segments_roundtrip(a: Seq<SegmentView>)
    requires
        all_peers(a),
    ensures
        parse_segments(segs_encoding(a)) == a,
    decreases a.len(),
{
    if a.len() == 0 {
        assert(varint_decode(Seq::<u8>::empty(), 4) is None);
        assert(parse_segments(Seq::<u8>::empty()) == Seq::<SegmentView>::empty());
        assert(a =~= Seq::<SegmentView>::empty());
    } else {
        let b = segs_encoding(a);
        let e = seg_encoding(a[0]);
        let rest = segs_encoding(a.drop_first());
        assert(b == e + rest);
        lemma_all_peers_tail(a);
        lemma_parse_segment_roundtrip(a[0], rest);
        lemma_seg_encoding_len(a[0]);
        assert(b.subrange(e.len() as int, b.len() as int) =~= rest);
        assert(parse_segments(b) == seq![a[0]] + parse_segments(rest));
        lemma_parse_segments_roundtrip(a.drop_first());
        assert(seq![a[0]] + a.drop_first() =~= a);
    }
}

/// Encodings of distinct segments compare as the segments do, whatever follows.
pub proof fn lemma_seg_encoding_order(x: SegmentView, y: SegmentView, a: Seq<u8>, b: Seq<u8>)
    requires
        x != y,
    ensures
        lex_lt(seg_encoding(x) + a, seg_encoding(y) + b) == seg_lt(x, y),
{
    lemma_pow256_16();
    let px = varint_encoding(x.0 as nat);
    let py = varint_encoding(y.0 as nat);
    let sx = varint_encoding(x.1 as nat);
    let sy = varint_encoding(y.1 as nat);
    assert(seg_encoding(x) + a =~= px + (sx + a));
    assert(seg_encoding(y) + b =~= py + (sy + b));
    if x.0 != y.0 {
        lemma_varint_order(x.0 as nat, y.0 as nat, sx + a, sy + b);
    } else {
        lemma_varint_order(x.1 as nat, y.1 as nat, a, b);
        lemma_lex_common_prefix(px, sx + a, sy + b);
    }
}

/// Encodings of segment sequences compare as the sequences do.
pub proof fn lemma_segs_encoding_order(a: Seq<SegmentView>, b: Seq<SegmentView>)
    ensures
        lex_lt(segs_encoding(a), segs_encoding(b)) == segs_lt(a, b),
    decreases a.len(),
{
    if a.len() == 0 {
        if b.len() > 0 {
            lemma_seg_encoding_len(b[0]);
        }
    } else if b.len() == 0 {
        lemma_seg_encoding_len(a[0]);
    } else if a[0] == b[0] {
        lemma_segs_encoding_order(a.drop_first(), b.drop_first());
        lemma_lex_common_prefix(
            seg_encoding(a[0]),
            segs_encoding(a.drop_first()),
            segs_encoding(b.drop_first()),
        );
    } else {
        lemma_seg_encoding_order(a[0], b[0], segs_encoding(a.drop_first()), segs_encoding(b.drop_first()));
    }
}

/// An index read from the front of `b` lies within `b`.
pub proof fn lemma_index_prefix_len_bound(b: Seq<u8>)
    ensures
        index_prefix_len(b) matches Some(k) ==> k <= b.len(),
    decreases b.len(),
{
    if b.len() > 0 {
        if let Some((p, n1)) = varint_decode(b, 4) {
            if p != 0 {
                let u = b.subrange(n1 as int, b.len() as int);
                if let Some((s, n2)) = varint_decode(u, 4) {
                    if 0 < n1 + n2 <= b.len() {
                        lemma_index_prefix_len_bound(b.subrange((n1 + n2) as int, b.len() as int));
                    }
                }
            }
        }
    }
}

// ---------------------------------------------------------------------------
// The generator's law, first over segments, then over bytes.

pub proof fn lemma_segs_lt_cons(s: SegmentView, a: Seq<SegmentView>, b: Seq<SegmentView>)
    ensures
        segs_lt(seq![s] + a, seq![s] + b) == segs_lt(a, b),
{
    assert((seq![s] + a).drop_first() =~= a);
    assert((seq![s] + b).drop_first() =~= b);
}

pub proof fn lemma_all_peers_cons(s: SegmentView, a: Seq<SegmentView>)
    requires
        s.0 != 0,
        all_peers(a),
    ensures
        all_peers(seq![s] + a),
{
    assert forall|i: int| 0 <= i < (seq![s] + a).len() implies #[trigger] (seq![s] + a)[i].0 != 0 by {
        if i > 0 {
            assert((seq![s] + a)[i] == a[i - 1]);
        }
    }
}

pub proof fn lemma_all_peers_tail(a: Seq<SegmentView>)
    requires
        all_peers(a),
        a.len() > 0,
    ensures
        all_peers(a.drop_first()),
        a[0].0 != 0,
{
    assert forall|i: int| 0 <= i < a.drop_first().len() implies #[trigger] a.drop_first()[i].0 != 0 by {
        assert(a.drop_first()[i] == a[i + 1]);
    }
}

/// The generated segments sort above the lower bound and name peers only.
pub proof fn lemma_between_above(lo: Seq<SegmentView>, hi: Option<Seq<SegmentView>>, p: u32)
    requires
        p != 0,
        all_peers(lo),
        hi matches Some(hs) ==> all_peers(hs),
    ensures
        segs_lt(lo, between_rec(lo, hi, p)),
        all_peers(between_rec(lo, hi, p)),
        between_rec(lo, hi, p).len() > 0,
    decreases lo.len(),
{
    let r = between_rec(lo, hi, p);
    if lo.len() > 0 {
        lemma_all_peers_tail(lo);
        let l = lo[0];
        assert(lo =~= seq![l] + lo.drop_first());
    }
    if hi is Some && hi.unwrap().len() > 0 {
        let hs = hi.unwrap();
        let h = hs[0];
        lemma_all_peers_tail(hs);
        if lo.len() > 0 {
            let l = lo[0];
            if l == h {
                let rest = between_rec(lo.drop_first(), Some(hs.drop_first()), p);
                lemma_between_above(lo.drop_first(), Some(hs.drop_first()), p);
                lemma_segs_lt_cons(l, lo.drop_first(), rest);
                lemma_all_peers_cons(l, rest);
            } else if l.0 == p && l.1 < u32::MAX && seg_lt((p, (l.1 + 1) as u32), h) {
                lemma_all_peers_cons((p, (l.1 + 1) as u32), Seq::empty());
                assert(seq![(p, (l.1 + 1) as u32)] + Seq::<SegmentView>::empty() =~= r);
            } else {
                let rest = between_rec(lo.drop_first(), None, p);
                lemma_between_above(lo.drop_first(), None, p);
                lemma_segs_lt_cons(l, lo.drop_first(), rest);
                lemma_all_peers_cons(l, rest);
            }
        } else {
            let b = below_bound(h, p);
            assert(b.len() == 1);
            assert(b[0].0 != 0);
            assert(all_peers(b));
        }
    } else {
        if lo.len() > 0 {
            let l = lo[0];
            if l.1 < u32::MAX && p >= l.0 {
                lemma_all_peers_cons((p, (l.1 + 1) as u32), Seq::empty());
                assert(seq![(p, (l.1 + 1) as u32)] + Seq::<SegmentView>::empty() =~= r);
            } else {
                let rest = between_rec(lo.drop_first(), None, p);
                lemma_between_above(lo.drop_first(), None, p);
                lemma_segs_lt_cons(l, lo.drop_first(), rest);
                lemma_all_peers_cons(l, rest);
            }
        } else {
            assert(all_peers(r));
        }
    }
}

/// The generated segments sort below a bounding upper bound.
pub proof fn lemma_between_below(lo: Seq<SegmentView>, hs: Seq<SegmentView>, p: u32)
    requires
        p != 0,
        all_peers(hs),
        hs.len() > 0,
        segs_lt(lo, hs),
        hs != lo.push((1u32, 0u32)),
    ensures
        segs_lt(between_rec(lo, Some(hs), p), hs),
    decreases lo.len(),
{
    let r = between_rec(lo, Some(hs), p);
    let h = hs[0];
    lemma_all_peers_tail(hs);
    if lo.len() > 0 {
        let l = lo[0];
        if l == h {
            let rest = between_rec(lo.drop_first(), Some(hs.drop_first()), p);
            assert(r == seq![l] + rest);
            assert(segs_lt(lo.drop_first(), hs.drop_first()));
            if hs.drop_first() == lo.drop_first().push((1u32, 0u32)) {
                assert(hs =~= lo.push((1u32, 0u32))) by {
                    assert(hs =~= seq![h] + hs.drop_first());
                    assert(lo =~= seq![l] + lo.drop_first());
                }
            }
            lemma_between_below(lo.drop_first(), hs.drop_first(), p);
            lemma_segs_lt_cons(l, rest, hs.drop_first());
            assert(hs =~= seq![l] + hs.drop_first());
            assert(segs_lt(r, hs));
        } else {
            assert(seg_lt(l, h));
            if l.0 == p && l.1 < u32::MAX && seg_lt((p, (l.1 + 1) as u32), h) {
                assert(r == seq![(p, (l.1 + 1) as u32)]);
                assert(r[0] == (p, (l.1 + 1) as u32));
                assert(segs_lt(r, hs));
            } else {
                let rest = between_rec(lo.drop_first(), None, p);
                assert(r == seq![l] + rest);
                assert(r[0] == l);
                assert(segs_lt(r, hs));
            }
        }
    } else {
        let b = below_bound(h, p);
        assert(r == b);
        if !seg_lt((p, 1), h) && !seg_lt((p, 0), h) && h.1 == 0 && h.0 <= 1 {
            assert(h == (1u32, 0u32));
            if hs.len() == 1 {
                assert(hs =~= lo.push((1u32, 0u32)));
            }
            assert(r == seq![h]);
            assert(r.drop_first().len() == 0);
            assert(hs.drop_first().len() > 0);
            assert(r.drop_first() =~= Seq::<SegmentView>::empty());
            assert(segs_lt(r.drop_first(), hs.drop_first()));
            assert(segs_lt(r, hs));
        } else {
            assert(r.len() == 1);
            assert(seg_lt(r[0], h));
            assert(segs_lt(r, hs));
        }
    }
}

/// The index generated between two well-formed indices sorts strictly
/// between them whenever some index does, and is itself well formed.
pub proof fn lemma_between_index(lo: Seq<u8>, hi: Seq<u8>, p: u32)
    requires
        p != 0,
        index_well_formed(lo),
        index_well_formed(hi),
        all_peers(parse_segments(lo)),
        all_peers(parse_segments(hi)),
        between_possible(lo, hi),
    ensures
        lex_lt(lo, between_index(lo, hi, p)),
        hi.len() > 0 ==> lex_lt(between_index(lo, hi, p), hi),
        index_well_formed(between_index(lo, hi, p)),
{
    let ls = parse_segments(lo);
    let hs = parse_segments(hi);
    let rs = between_rec(ls, Some(hs), p);
    lemma_between_above(ls, Some(hs), p);
    lemma_segs_encoding_order(ls, rs);
    lemma_parse_segments_roundtrip(rs);
    if hi.len() > 0 {
        lemma_segs_encoding_order(ls, hs);
        if hs.len() == 0 {
            assert(segs_encoding(hs) =~= Seq::<u8>::empty());
        }
        if hs == ls.push((1u32, 0u32)) {
            lemma_segs_encoding_push(ls, (1u32, 0u32));
        }
        lemma_between_below(ls, hs, p);
        lemma_segs_encoding_order(rs, hs);
    }
}

/// With no upper bound, a peer appending after an index whose first segment
/// is its own (or a lower peer's) with a sequence number below `u32::MAX`
/// stays at the same level: the new index is the single segment of that peer
/// with that sequence number plus one, whatever follows in the lower bound.
pub proof fn lemma_append_stays_at_level(lo: Seq<SegmentView>, p: u32)
    requires
        p != 0,
        all_peers(lo),
        lo.len() > 0,
        lo[0].0 <= p,
        lo[0].1 < u32::MAX,
    ensures
        between_index(segs_encoding(lo), Seq::empty(), p) == seg_encoding((p, (lo[0].1 + 1) as u32)),
{
    let none = Seq::<SegmentView>::empty();
    lemma_parse_segments_roundtrip(lo);
    lemma_parse_segments_roundtrip(none);
    assert(segs_encoding(none) =~= Seq::<u8>::empty());
    let r = seq![(p, (lo[0].1 + 1) as u32)];
    assert(between_rec(lo, Some(none), p) == r);
    assert(r.drop_first() =~= none);
    assert(segs_encoding(r) =~= seg_encoding(r[0]));
}

/// Where both bounds are given and part at their first segments, the lower
/// one being the peer's own, the peer takes its next sequence number at that
/// level whenever that still sorts below the upper bound's first segment:
/// the new index is that single segment.
pub proof fn lemma_between_stays_at_level(lo: Seq<SegmentView>, hs: Seq<SegmentView>, p: u32)
    requires
        p != 0,
        all_peers(lo),
        all_peers(hs),
        lo.len() > 0,
        hs.len() > 0,
        lo[0] != hs[0],
        lo[0].0 == p,
        lo[0].1 < u32::MAX,
        seg_lt((p, (lo[0].1 + 1) as u32), hs[0]),
    ensures
        between_index(segs_encoding(lo), segs_encoding(hs), p) == seg_encoding((p, (lo[0].1 + 1) as u32)),
{
    lemma_parse_segments_roundtrip(lo);
    lemma_parse_segments_roundtrip(hs);
    let r = seq![(p, (lo[0].1 + 1) as u32)];
    assert(between_rec(lo, Some(hs), p) == r);
    assert(r.drop_first() =~= Seq::<SegmentView>::empty());
    assert(segs_encoding(Seq::<SegmentView>::empty()) =~= Seq::<u8>::empty());
    assert(segs_encoding(r) == seg_encoding(r[0]) + segs_encoding(r.drop_first()));
    assert(segs_encoding(r) =~= seg_encoding(r[0]));
}

/// With no lower bound, a peer starts at the first level with sequence
/// number one, when there is no upper bound or that still sorts below the
/// upper bound's first segment.
pub proof fn lemma_first_index(hs: Seq<SegmentView>, p: u32)
    requires
        p != 0,
        all_peers(hs),
        hs.len() == 0 || seg_lt((p, 1u32), hs[0]),
    ensures
        between_index(Seq::empty(), segs_encoding(hs), p) == seg_encoding((p, 1u32)),
{
    let none = Seq::<SegmentView>::empty();
    lemma_parse_segments_roundtrip(none);
    lemma_parse_segments_roundtrip(hs);
    assert(segs_encoding(none) =~= Seq::<u8>::empty());
    let r = seq![(p, 1u32)];
    assert(between_rec(none, Some(hs), p) == r);
    assert(r.drop_first() =~= none);
    assert(segs_encoding(r) == seg_encoding(r[0]) + segs_encoding(r.drop_first()));
    assert(segs_encoding(r) =~= seg_encoding(r[0]));
}

/// Every segment that the parse yields names a peer.
pub proof fn lemma_parse_segments_peers(b: Seq<u8>)
    ensures
        all_peers(parse_segments(b)),
    decreases b.len(),
{
    match parse_segment(b) {
        None => {},
        Some((s, n)) => {
            lemma_varint_decode_facts(b, 4);
            lemma_pow256_16();
            if 0 < n <= b.len() {
                lemma_parse_segments_peers(b.subrange(n as int, b.len() as int));
                lemma_all_peers_cons(s, parse_segments(b.subrange(n as int, b.len() as int)));
            }
        },
    }
}

// ---------------------------------------------------------------------------
// Executable code.

/// One segment of a fractional index.
#[derive(Debug, Clone, Copy, PartialEq, Eq, Structural, PartialOrd, Ord, Hash)]
pub struct Segment {
    pid: PID,
    seq: u32,
}

impl View for Segment {
    type V = SegmentView;

    closed spec fn view(&self) -> SegmentView {
        (self.pid@, self.seq)
    }
}

/// The plain values of a list of segments.
pub open spec fn seg_views(v: Seq<Segment>) -> Seq<SegmentView> {
    v.map_values(|s: Segment| s@)
}

impl Segment {
    pub fn new(pid: PID, seq: u32) -> (r: Segment)
        ensures
            r@ == (pid@, seq),
    {
        Segment { pid, seq }
    }

    /// The peer of this segment.
    pub fn pid(&self) -> (r: PID)
        ensures
            r@ == self@.0,
    {
        self.pid
    }

    /// The sequence number of this segment.
    pub fn seq(&self) -> (r: u32)
        ensures
            r == self@.1,
    {
        self.seq
    }

    /// Parses the next segment from the front of `bytes`, with what follows it.
    pub fn parse(bytes: &[u8]) -> (r: Option<(Segment, &[u8])>)
        ensures
            match r {
                Some((s, rest)) => exists|n: nat|
                    parse_segment(bytes@) == Some((s@, n)) && n <= bytes@.len() && rest@
                        == bytes@.subrange(n as int, bytes@.len() as int),
                None => parse_segment(bytes@) is None,
            },
    {
        let (pid, n) = match <u32 as VarInt>::read_from(bytes) {
            Some(x) => x,
            None => return None,
        };
        let pid = match PID::new(pid) {
            Some(p) => p,
            None => return None,
        };
        let rest = &bytes[n..bytes.len()];
        let (seq, m) = match <u32 as VarInt>::read_from(rest) {
            Some(x) => x,
            None => return None,
        };
        let rest2 = &rest[m..rest.len()];
        proof {
            assert(rest2@ =~= bytes@.subrange((n + m) as int, bytes@.len() as int));
            assert(parse_segment(bytes@) == Some(((pid@, seq), (n + m) as nat)));
        }
        Some((Segment { pid, seq }, rest2))
    }

    /// Appends the bytes of this segment.
    pub fn write(&self, w: &mut Vec<u8>)
        ensures
            final(w)@ == old(w)@ + seg_encoding(self@),
    {
        let p = self.pid.get();
        p.write(w);
        self.seq.write(w);
        proof {
            assert(old(w)@ + varint_encoding(p as nat) + varint_encoding(self.seq as nat)
                =~= old(w)@ + seg_encoding(self@));
        }
    }
}

/// Reads segments one after another from a byte string.
pub struct Segments<'a> {
    bytes: &'a [u8],
}

impl<'a> Segments<'a> {
    pub fn new(bytes: &'a [u8]) -> (r: Segments<'a>)
        ensures
            r.remaining() == bytes@,
    {
        Segments { bytes }
    }

    /// The bytes not read yet.
    pub closed spec fn remaining(&self) -> Seq<u8> {
        self.bytes@
    }

    /// The next segment; at the first one that fails to parse, nothing, and
    /// the position stays.
    pub fn next(&mut self) -> (r: Option<Segment>)
        ensures
            match r {
                Some(s) => exists|n: nat|
                    parse_segment(old(self).remaining()) == Some((s@, n)) && n <= old(
                        self,
                    ).remaining().len() && final(self).remaining() == old(self).remaining().subrange(
                        n as int,
                        old(self).remaining().len() as int,
                    ),
                None => parse_segment(old(self).remaining()) is None && final(self).remaining()
                    == old(self).remaining(),
            },
    {
        match Segment::parse(self.bytes) {
            Some((s, rest)) => {
                self.bytes = rest;
                Some(s)
            },
            None => None,
        }
    }

    /// All remaining segments, in order.
    pub fn into_vec(self) -> (r: Vec<Segment>)
        ensures
            seg_views(r@) == parse_segments(self.remaining()),
    {
        let mut it = self;
        let mut out: Vec<Segment> = Vec::new();
        loop
            invariant
                seg_views(out@) + parse_segments(it.remaining()) == parse_segments(self.remaining()),
            decreases it.remaining().len(),
        {
            let ghost before = it.remaining();
            match it.next() {
                Some(s) => {
                    let ghost after = it.remaining();
                    proof {
                        lemma_seg_encoding_len(s@);
                        let n = choose|n: nat|
                            parse_segment(before) == Some((s@, n)) && n <= before.len() && after
                                == before.subrange(n as int, before.len() as int);
                        assert(n > 0);
                        assert(parse_segments(before) == seq![s@] + parse_segments(after));
                        assert(seg_views(out@.push(s)) =~= seg_views(out@).push(s@));
                        assert(seg_views(out@).push(s@) + parse_segments(after) =~= seg_views(out@)
                            + (seq![s@] + parse_segments(after)));
                    }
                    out.push(s);
                },
                None => {
                    proof {
                        assert(parse_segments(before) =~= Seq::<SegmentView>::empty());
                        assert(seg_views(out@) + Seq::<SegmentView>::empty() =~= seg_views(out@));
                    }
                    return out;
                },
            }
        }
    }
}

/// A fractional index: the bytes of a sequence of segments.
#[derive(Debug, Clone, Copy, PartialEq, Eq, Hash)]
pub struct FractionalIndex<'a> {
    buf: &'a [u8],
}

impl<'a> View for FractionalIndex<'a> {
    type V = Seq<u8>;

    closed spec fn view(&self) -> Seq<u8> {
        self.buf@
    }
}

impl<'a> FractionalIndex<'a> {
    /// Wraps bytes as an index without checking them.
    pub fn new(buf: &'a [u8]) -> (r: Self)
        ensures
            r@ == buf@,
    {
        FractionalIndex { buf }
    }

    #[inline]
    pub fn bytes(&self) -> (r: &'a [u8])
        ensures
            r@ == self@,
    {
        self.buf
    }

    /// Reads the segments of this index one by one.
    pub fn segments(&self) -> (r: Segments<'a>)
        ensures
            r.remaining() == self@,
    {
        Segments::new(self.buf)
    }

    /// Reads the index at the front of `bytes`, with the number of bytes it
    /// takes; nothing when a peer id is not followed by a sequence number.
    pub fn from_bytes(bytes: &'a [u8]) -> (r: Option<(Self, usize)>)
        ensures
            match r {
                Some((idx, n)) => index_prefix_len(bytes@) == Some(n as nat) && idx@
                    == bytes@.subrange(0, n as int),
                None => index_prefix_len(bytes@) is None,
            },
    {
        let mut i: usize = 0;
        let mut b: &[u8] = bytes;
        loop
            invariant
                i <= bytes.len(),
                b@ == bytes@.subrange(i as int, bytes@.len() as int),
                index_prefix_len(bytes@) == match index_prefix_len(b@) {
                    None => None,
                    Some(k) => Some((i + k) as nat),
                },
            ensures
                i <= bytes.len(),
                b@ == bytes@.subrange(i as int, bytes@.len() as int),
                index_prefix_len(bytes@) == match index_prefix_len(b@) {
                    None => None,
                    Some(k) => Some((i + k) as nat),
                },
                index_prefix_len(b@) == Some(0nat),
            decreases b.len(),
        {
            if b.len() == 0 {
                break;
            }
            let n = match <u32 as VarInt>::read_from(b) {
                None => break,
                Some((p, n)) => {
                    if p == 0 {
                        break;
                    }
                    n
                },
            };
            let rest = &b[n..b.len()];
            let m = match <u32 as VarInt>::read_from(rest) {
                None => return None,
                Some((_, m)) => m,
            };
            proof {
                lemma_varint_decode_facts(b@, 4);
                lemma_varint_decode_facts(rest@, 4);
                let sub = b@.subrange((n + m) as int, b@.len() as int);
                assert(rest@.subrange(m as int, rest@.len() as int) =~= sub);
                assert(sub =~= bytes@.subrange((i + n + m) as int, bytes@.len() as int));
            }
            b = &rest[m..rest.len()];
            i = i + n + m;
        }
        Some((FractionalIndex { buf: &bytes[0..i] }, i))
    }

    /// A new index for peer `pid` that sorts strictly between `lo` and `hi`
    /// (no bound when absent); see `lemma_between_index` for when it does.
    pub fn between(lo: Option<&[u8]>, hi: Option<&[u8]>, pid: PID) -> (r: Vec<u8>)
        ensures
            r@ == between_index(
                match lo {
                    Some(l) => l@,
                    None => Seq::empty(),
                },
                match hi {
                    Some(h) => h@,
                    None => Seq::empty(),
                },
                pid@,
            ),
    {
        let empty: &[u8] = &[];
        proof {
            assert(empty@ =~= Seq::<u8>::empty());
        }
        let lo_bytes: &[u8] = match lo {
            Some(l) => l,
            None => empty,
        };
        let hi_bytes: &[u8] = match hi {
            Some(h) => h,
            None => empty,
        };
        let mut out: Vec<u8> = Vec::new();
        write_fractional_index(&mut out, lo_bytes, hi_bytes, pid);
        proof {
            assert(Seq::<u8>::empty() + between_index(lo_bytes@, hi_bytes@, pid@) =~= between_index(
                lo_bytes@,
                hi_bytes@,
                pid@,
            ));
        }
        out
    }
}

/// Appends to `w` the index that peer `pid` generates between `lo` and `hi`
/// (an empty `hi` is unbounded).
pub fn write_fractional_index(w: &mut Vec<u8>, lo: &[u8], hi: &[u8], pid: PID)
    ensures
        final(w)@ == old(w)@ + between_index(lo@, hi@, pid@),
{
    let los = Segments::new(lo).into_vec();
    let his = Segments::new(hi).into_vec();
    let p: u32 = pid.get();
    let ghost ls = parse_segments(lo@);
    let ghost hs = parse_segments(hi@);
    let ghost target = between_rec(ls, Some(hs), p);
    let ghost mut acc: Seq<SegmentView> = Seq::empty();
    let mut i: usize = 0;
    let mut tight: bool = true;
    proof {
        assert(ls.subrange(0, ls.len() as int) =~= ls);
        assert(hs.subrange(0, hs.len() as int) =~= hs);
        assert(segs_encoding(acc) =~= Seq::<u8>::empty());
        assert(old(w)@ + Seq::<u8>::empty() =~= old(w)@);
    }
    loop
        invariant_except_break
            target == acc + between_rec(
                ls.subrange(i as int, ls.len() as int),
                if tight {
                    Some(hs.subrange(i as int, hs.len() as int))
                } else {
                    None
                },
                p,
            ),
        invariant
            seg_views(los@) == ls,
            seg_views(his@) == hs,
            p == pid@,
            i <= los.len(),
            tight ==> i <= his.len(),
            w@ == old(w)@ + segs_encoding(acc),
        ensures
            w@ == old(w)@ + segs_encoding(target),
        decreases los.len() - i,
    {
        let ghost lsub = ls.subrange(i as int, ls.len() as int);
        let ghost hopt: Option<Seq<SegmentView>> = if tight {
            Some(hs.subrange(i as int, hs.len() as int))
        } else {
            None
        };
        let tight_here = tight && i < his.len();
        proof {
            if tight_here {
                assert(hopt.unwrap()[0] == hs[i as int]);
                assert(hs[i as int] == his@[i as int]@);
            }
            if i < los.len() {
                assert(lsub[0] == ls[i as int]);
                assert(ls[i as int] == los@[i as int]@);
                assert(lsub.drop_first() =~= ls.subrange(i + 1, ls.len() as int));
                if tight_here {
                    assert(hopt.unwrap().drop_first() =~= hs.subrange(i + 1, hs.len() as int));
                }
            }
        }
        let ghost acc_before = acc;
        let next: Option<Segment>;
        if i < los.len() {
            let l = los[i];
            let lp = l.pid.get();
            let lq = l.seq;
            if tight_here {
                let h = his[i];
                let hp = h.pid.get();
                let hq = h.seq;
                if lp == hp && lq == hq {
                    proof {
                        assert(between_rec(lsub, hopt, p) == seq![l@] + between_rec(
                            ls.subrange(i + 1, ls.len() as int),
                            Some(hs.subrange(i + 1, hs.len() as int)),
                            p,
                        ));
                    }
                    next = None;
                } else if lp == p && lq < u32::MAX && seg_less(p, lq + 1, hp, hq) {
                    next = Some(Segment { pid, seq: lq + 1 });
                    proof {
                        assert(between_rec(lsub, hopt, p) == seq![(p, (lq + 1) as u32)]);
                    }
                } else {
                    proof {
                        assert(between_rec(lsub, hopt, p) == seq![l@] + between_rec(
                            ls.subrange(i + 1, ls.len() as int),
                            None,
                            p,
                        ));
                    }
                    tight = false;
                    next = None;
                }
            } else {
                if lq < u32::MAX && p >= lp {
                    next = Some(Segment { pid, seq: lq + 1 });
                    proof {
                        assert(between_rec(lsub, hopt, p) == seq![(p, (lq + 1) as u32)]);
                    }
                } else {
                    proof {
                        assert(between_rec(lsub, hopt, p) == seq![l@] + between_rec(
                            ls.subrange(i + 1, ls.len() as int),
                            None,
                            p,
                        ));
                    }
                    tight = false;
                    next = None;
                }
            }
        } else {
            if tight_here {
                next = Some(segment_below(his[i], pid));
                proof {
                    assert(between_rec(lsub, hopt, p) == below_bound(his@[i as int]@, p));
                }
            } else {
                next = Some(Segment { pid, seq: 1 });
                proof {
                    assert(between_rec(lsub, hopt, p) == seq![(p, 1u32)]);
                }
            }
        }
        match next {
            Some(s) => {
                s.write(w);
                proof {
                    lemma_segs_encoding_push(acc, s@);
                    assert(old(w)@ + segs_encoding(acc) + seg_encoding(s@) =~= old(w)@ + (
                    segs_encoding(acc) + seg_encoding(s@)));
                    acc = acc.push(s@);
                    assert(target =~= acc);
                }
                break;
            },
            None => {
                let l = los[i];
                l.write(w);
                proof {
                    let rest = between_rec(
                        ls.subrange(i + 1, ls.len() as int),
                        if tight {
                            Some(hs.subrange(i + 1, hs.len() as int))
                        } else {
                            None
                        },
                        p,
                    );
                    lemma_segs_encoding_push(acc, l@);
                    assert(old(w)@ + segs_encoding(acc) + seg_encoding(l@) =~= old(w)@ + (
                    segs_encoding(acc) + seg_encoding(l@)));
                    assert(acc.push(l@) + rest =~= acc + (seq![l@] + rest));
                    acc = acc.push(l@);
                }
                i = i + 1;
            },
        }
    }
}

/// `(ap, aseq)` sorts before `(bp, bseq)`.
fn seg_less(ap: u32, aseq: u32, bp: u32, bseq: u32) -> (r: bool)
    ensures
        r == seg_lt((ap, aseq), (bp, bseq)),
{
    ap < bp || (ap == bp && aseq < bseq)
}

/// The segment written below the upper bound `h` once the lower bound is used up.
fn segment_below(h: Segment, pid: PID) -> (r: Segment)
    ensures
        seq![r@] == below_bound(h@, pid@),
{
    let p = pid.get();
    let hp = h.pid.get();
    if seg_less(p, 1, hp, h.seq) {
        Segment { pid, seq: 1 }
    } else if seg_less(p, 0, hp, h.seq) {
        Segment { pid, seq: 0 }
    } else if h.seq > 0 {
        Segment { pid: h.pid, seq: h.seq - 1 }
    } else if hp > 1 {
        match PID::new(hp - 1) {
            Some(q) => Segment { pid: q, seq: u32::MAX },
            None => h,
        }
    } else {
        h
    }
}

} // verus!
