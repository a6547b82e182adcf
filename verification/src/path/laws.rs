//! What a reader gives back of a path that a writer wrote.
use crate::bytes::{lemma_be_value_of_seq, lemma_be_seq_len};
use crate::path::lseq::{
    all_peers, index_prefix_len, index_well_formed, lemma_all_peers_tail,
    lemma_parse_segments_peers, lemma_seg_encoding_len, parse_segments, seg_encoding,
    segs_encoding,
};
use crate::path::read::{field_len, path_result, read_path, read_step};
use crate::path::{
    field_bytes_valid, item_encoding, items_encoding, PathItem, DELIMITER,
};
use crate::varint::{
    lemma_encoding_len, lemma_pow256_16, lemma_sig_len_fits, lemma_varint_roundtrip, sig_len,
    varint_decode, varint_encoding,
};
use vstd::prelude::*;
use vstd::utf8::valid_utf8;

verus! {

/// A segment that a writer can put inside a path: a human-readable UTF-8
/// field, or a well-formed index of at least one segment.
pub open spec fn inner_item_valid(it: PathItem) -> bool {
    match it {
        PathItem::Field(b) => field_bytes_valid(b) && valid_utf8(b),
        PathItem::Index(b) => index_well_formed(b) && parse_segments(b).len() > 0,
        _ => false,
    }
}

/// A terminator that a writer can close a path with.
pub open spec fn terminator_valid(it: PathItem) -> bool {
    match it {
        PathItem::Lww => true,
        PathItem::Counter(p) => p != 0,
        PathItem::Chunked(_) => true,
        _ => false,
    }
}

pub proof fn lemma_items_encoding_front(items: Seq<PathItem>)
    requires
        items.len() > 0,
    ensures
        items_encoding(items) == item_encoding(items[0]) + items_encoding(items.drop_first()),
    decreases items.len(),
{
    if items.len() == 1 {
        assert(items.drop_last().len() == 0);
        assert(items_encoding(items.drop_last()) == Seq::<u8>::empty());
        assert(items.last() == items[0]);
        assert(items.drop_first().len() == 0);
        assert(items_encoding(items.drop_first()) == Seq::<u8>::empty());
        assert(items_encoding(items) =~= item_encoding(items[0]) + items_encoding(items.drop_first()));
    } else {
        lemma_items_encoding_front(items.drop_last());
        let f = items.drop_first();
        assert(items.drop_last().drop_first() =~= f.drop_last());
        assert(f.last() == items.last());
        assert(items.drop_last()[0] == items[0]);
        assert(items_encoding(f) == items_encoding(f.drop_last()) + item_encoding(f.last()));
        assert(items_encoding(items) == items_encoding(items.drop_last()) + item_encoding(items.last()));
        assert(items_encoding(items) =~= item_encoding(items[0]) + items_encoding(items.drop_first()));
    }
}

proof fn lemma_field_len_of(b: Seq<u8>, rest: Seq<u8>)
    requires
        field_bytes_valid(b),
        rest.len() > 0,
        rest[0] == DELIMITER,
    ensures
        field_len(b + rest) == b.len(),
    decreases b.len(),
{
    if b.len() == 0 {
        assert(b + rest =~= rest);
    } else {
        assert(b[0] >= 32);
        assert((b + rest).drop_first() =~= b.drop_first() + rest);
        assert(field_bytes_valid(b.drop_first())) by {
            assert forall|i: int| 0 <= i < b.drop_first().len() implies #[trigger] b.drop_first()[i]
                >= 32 by {
                assert(b.drop_first()[i] == b[i + 1]);
            }
        }
        lemma_field_len_of(b.drop_first(), rest);
    }
}

proof fn lemma_index_prefix_of_encoding(a: Seq<(u32, u32)>, rest: Seq<u8>)
    requires
        all_peers(a),
        rest.len() > 0,
        rest[0] == DELIMITER,
    ensures
        index_prefix_len(segs_encoding(a) + rest) == Some(segs_encoding(a).len()),
    decreases a.len(),
{
    lemma_pow256_16();
    if a.len() == 0 {
        assert(segs_encoding(a) + rest =~= rest);
        assert(rest.subrange(1, 1) =~= Seq::<u8>::empty());
        assert(varint_decode(rest, 4) == Some((0nat, 1nat)));
    } else {
        let s = a[0];
        lemma_all_peers_tail(a);
        let tail = segs_encoding(a.drop_first()) + rest;
        let e1 = varint_encoding(s.0 as nat);
        let e2 = varint_encoding(s.1 as nat);
        let x = segs_encoding(a) + rest;
        assert(x =~= e1 + (e2 + tail));
        lemma_varint_roundtrip(s.0 as nat, 4, e2 + tail);
        lemma_encoding_len(s.0 as nat);
        lemma_encoding_len(s.1 as nat);
        assert(x.subrange(e1.len() as int, x.len() as int) =~= e2 + tail);
        lemma_varint_roundtrip(s.1 as nat, 4, tail);
        assert(x.subrange((e1.len() + e2.len()) as int, x.len() as int) =~= tail);
        lemma_index_prefix_of_encoding(a.drop_first(), rest);
        assert(segs_encoding(a) =~= e1 + e2 + segs_encoding(a.drop_first()));
    }
}

/// A field or index written in front of further segments is read back, and
/// the reader stops right after it.
pub proof fn lemma_read_inner_item(x: PathItem, rest: Seq<u8>)
    requires
        inner_item_valid(x),
        rest.len() >= 2,
        rest[0] == DELIMITER,
    ensures
        read_step(item_encoding(x) + rest) == Some((Ok::<PathItem, crate::path::PathError>(x), rest)),
{
    let whole = item_encoding(x) + rest;
    match x {
        PathItem::Field(b) => {
            let t = whole.subrange(1, whole.len() as int);
            assert(t =~= b + rest);
            if b.len() > 0 {
                assert(b[0] >= 32);
            }
            lemma_field_len_of(b, rest);
            assert(t.subrange(0, b.len() as int) =~= b);
            assert(t.subrange(b.len() as int, t.len() as int) =~= rest);
        },
        PathItem::Index(b) => {
            let a = parse_segments(b);
            lemma_parse_segments_peers(b);
            let t = whole.subrange(1, whole.len() as int);
            assert(t =~= b + rest);
            lemma_index_prefix_of_encoding(a, rest);
            lemma_pow256_16();
            lemma_seg_encoding_len(a[0]);
            lemma_encoding_len(a[0].0 as nat);
            lemma_sig_len_fits(a[0].0 as nat, 4);
            assert(b == seg_encoding(a[0]) + segs_encoding(a.drop_first()));
            assert(t[0] == varint_encoding(a[0].0 as nat)[0]);
            assert(sig_len(a[0].0 as nat) >= 1);
            assert(t.subrange(0, b.len() as int) =~= b);
            assert(t.subrange(b.len() as int, t.len() as int) =~= rest);
        },
        _ => {},
    }
}

/// A terminator is read back, and nothing follows it.
pub proof fn lemma_read_terminator(x: PathItem)
    requires
        terminator_valid(x),
    ensures
        read_step(item_encoding(x)) == Some((Ok::<PathItem, crate::path::PathError>(x), Seq::<u8>::empty())),
        read_path(item_encoding(x)) == seq![Ok::<PathItem, crate::path::PathError>(x)],
{
    let b = item_encoding(x);
    lemma_pow256_16();
    let t = b.subrange(1, b.len() as int);
    match x {
        PathItem::Counter(p) => {
            let u = b.subrange(2, b.len() as int);
            lemma_be_seq_len(p as nat, 4);
            assert(b.len() == 6);
            assert(b[0] == DELIMITER);
            assert(t[0] == crate::path::TERMINATOR_COUNTER);
            assert(t.subrange(1, t.len() as int) =~= crate::bytes::be_seq(p as nat, 4));
            lemma_be_value_of_seq(p as nat, 4);
        },
        PathItem::Chunked(e) => {
            lemma_encoding_len(e as nat);
            let u = t.subrange(1, t.len() as int);
            assert(b[0] == DELIMITER);
            assert(t[0] == crate::path::TERMINATOR_CHUNKED);
            assert(u =~= varint_encoding(e as nat) + Seq::<u8>::empty());
            lemma_varint_roundtrip(e as nat, 8, Seq::empty());
            assert(u.subrange(u.len() as int, u.len() as int) =~= Seq::<u8>::empty());
        },
        PathItem::Lww => {
            assert(b.len() == 2);
            assert(b[0] == DELIMITER);
            assert(t[0] == crate::path::TERMINATOR_LWW);
        },
        _ => {},
    }
    assert(read_step(Seq::<u8>::empty()) is None);
    assert(read_path(Seq::<u8>::empty()) =~= Seq::<Result<PathItem, crate::path::PathError>>::empty());
    assert(read_path(b) =~= seq![Ok::<PathItem, crate::path::PathError>(x)] + Seq::<Result<PathItem, crate::path::PathError>>::empty());
}

proof fn lemma_read_path_cons(x: PathItem, rest: Seq<u8>)
    requires
        read_step(item_encoding(x) + rest) == Some((Ok::<PathItem, crate::path::PathError>(x), rest)),
        item_encoding(x).len() >= 1,
    ensures
        read_path(item_encoding(x) + rest) == seq![Ok::<PathItem, crate::path::PathError>(x)]
            + read_path(rest),
{
}

proof fn lemma_path_result_cons(x: PathItem, rs: Seq<Result<PathItem, crate::path::PathError>>, xs: Seq<PathItem>)
    requires
        path_result(rs) == Ok::<Seq<PathItem>, crate::path::PathError>(xs),
    ensures
        path_result(seq![Ok::<PathItem, crate::path::PathError>(x)] + rs) == Ok::<
            Seq<PathItem>,
            crate::path::PathError,
        >(seq![x] + xs),
{
    assert((seq![Ok::<PathItem, crate::path::PathError>(x)] + rs).drop_first() =~= rs);
}

/// Reading a path written as `items` closed by `term` gives back `items`,
/// then `term`, and nothing more.
pub proof fn lemma_path_roundtrip(items: Seq<PathItem>, term: PathItem)
    requires
        forall|i: int| 0 <= i < items.len() ==> inner_item_valid(#[trigger] items[i]),
        terminator_valid(term),
    ensures
        path_result(read_path(items_encoding(items) + item_encoding(term))) == Ok::<
            Seq<PathItem>,
            crate::path::PathError,
        >(items.push(term)),
    decreases items.len(),
{
    if items.len() == 0 {
        assert(items_encoding(items) + item_encoding(term) =~= item_encoding(term));
        lemma_read_terminator(term);
        assert(path_result(Seq::<Result<PathItem, crate::path::PathError>>::empty()) == Ok::<
            Seq<PathItem>,
            crate::path::PathError,
        >(Seq::empty()));
        lemma_path_result_cons(term, Seq::empty(), Seq::empty());
        assert(seq![Ok::<PathItem, crate::path::PathError>(term)] + Seq::<
            Result<PathItem, crate::path::PathError>,
        >::empty() =~= seq![Ok::<PathItem, crate::path::PathError>(term)]);
        assert(items.push(term) =~= seq![term] + Seq::<PathItem>::empty());
    } else {
        let x = items[0];
        let rest_items = items.drop_first();
        let rest = items_encoding(rest_items) + item_encoding(term);
        lemma_items_encoding_front(items);
        assert(items_encoding(items) + item_encoding(term) =~= item_encoding(x) + rest);
        assert forall|i: int| 0 <= i < rest_items.len() implies inner_item_valid(
            #[trigger] rest_items[i],
        ) by {
            assert(rest_items[i] == items[i + 1]);
        }
        lemma_path_roundtrip(rest_items, term);
        if rest_items.len() > 0 {
            lemma_items_encoding_front(rest_items);
        } else {
            assert(rest =~= item_encoding(term));
        }
        assert(rest.len() >= 2);
        assert(rest[0] == DELIMITER);
        lemma_read_inner_item(x, rest);
        assert(item_encoding(x).len() >= 1);
        lemma_read_path_cons(x, rest);
        lemma_path_result_cons(x, read_path(rest), rest_items.push(term));
        assert(items.push(term) =~= seq![x] + rest_items.push(term));
    }
}

/// An index pushed onto a path of valid segments and closed as a register
/// reads back at its position as that same index, the segments before it
/// and the terminator after it unchanged.
pub proof fn lemma_pushed_index_reads_back(items: Seq<PathItem>, b: Seq<u8>)
    requires
        forall|i: int| 0 <= i < items.len() ==> inner_item_valid(#[trigger] items[i]),
        index_well_formed(b),
        parse_segments(b).len() > 0,
    ensures
        path_result(read_path(items_encoding(items) + item_encoding(PathItem::Index(b)) + item_encoding(PathItem::Lww)))
            == Ok::<Seq<PathItem>, crate::path::PathError>(items.push(PathItem::Index(b)).push(PathItem::Lww)),
        items.push(PathItem::Index(b)).push(PathItem::Lww)[items.len() as int] == PathItem::Index(b),
{
    let more = items.push(PathItem::Index(b));
    assert(more.drop_last() =~= items);
    assert forall|i: int| 0 <= i < more.len() implies inner_item_valid(#[trigger] more[i]) by {
        if i < items.len() {
            assert(more[i] == items[i]);
        }
    }
    lemma_path_roundtrip(more, PathItem::Lww);
}

} // verus!
