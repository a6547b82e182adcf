//! Mutations: descriptions of changes to apply to the document tree.
use crate::path::lseq::{index_prefix_len, FractionalIndex};
use crate::path::write::PathWriter;
use crate::path::{field_bytes_valid, item_encoding, PathError, PathItem, MAX_PATH_LEN};
use crate::Error;
use vstd::prelude::*;
use vstd::string::StringSliceAdditionalSpecFns;
use vstd::utf8::encode_utf8;

verus! {

#[verifier::external_type_specification]
#[verifier::external_body]
pub struct ExCborValue(ciborium::value::Value);

/// A segment as plain values: a field's characters, or an index's bytes.
pub enum SegmentKey {
    Field(Seq<char>),
    Index(Seq<u8>),
}

/// A step of a mutation's path: a field, or a fractional index.
#[derive(Debug, Clone, PartialEq, Eq, Hash)]
pub enum Segment {
    Field(String),
    FractionalIndex(Vec<u8>),
}

impl View for Segment {
    type V = SegmentKey;

    open spec fn view(&self) -> SegmentKey {
        match self {
            Segment::Field(s) => SegmentKey::Field(s@),
            Segment::FractionalIndex(v) => SegmentKey::Index(v@),
        }
    }
}

/// An operation on a segment within its parent mutation.
#[derive(Debug, PartialEq)]
pub enum Op {
    /// Assign a new value to the segment.
    Assign(ciborium::value::Value),
    /// Delete the segment.
    Delete,
}

/// A description of changes to apply to the document tree.
#[derive(Debug, PartialEq)]
pub enum Mutation {
    /// Apply an operation to a path segment.
    Apply(Segment, Op),
    /// Step into a segment and apply a series of mutations within it.
    Nested(Segment, Vec<Mutation>),
    /// Compose other mutations.
    Compose(Vec<Mutation>),
}

impl Segment {
    /// The segment's bytes: a field's UTF-8 encoding, or an index's bytes.
    /// Segments compare as these bytes.
    pub fn as_bytes(&self) -> (r: &[u8])
        ensures
            r@ == match self@ {
                SegmentKey::Field(chars) => encode_utf8(chars),
                SegmentKey::Index(b) => b,
            },
    {
        match self {
            Segment::Field(field) => field.as_str().as_bytes(),
            Segment::FractionalIndex(index) => index.as_slice(),
        }
    }
}

/// A segment's bytes written after path bytes `acc`, or why it cannot be.
pub open spec fn seg_write(acc: Seq<u8>, k: SegmentKey) -> Result<Seq<u8>, Error> {
    match k {
        SegmentKey::Field(chars) => {
            let b = encode_utf8(chars);
            if !field_bytes_valid(b) {
                Err(Error::Path(PathError::InvalidField))
            } else if acc.len() + 1 + b.len() > MAX_PATH_LEN {
                Err(Error::Path(PathError::TooLong))
            } else {
                Ok(acc + item_encoding(PathItem::Field(b)))
            }
        },
        SegmentKey::Index(b) => {
            if !(index_prefix_len(b) == Some(b.len()) && b.len() > 0) {
                Err(Error::Path(PathError::InvalidIndex))
            } else if acc.len() + 1 + b.len() > MAX_PATH_LEN {
                Err(Error::Path(PathError::TooLong))
            } else {
                Ok(acc + item_encoding(PathItem::Index(b)))
            }
        },
    }
}

/// The path of a leaf: its bytes closed as a last-write-wins register.
pub open spec fn leaf_path(acc: Seq<u8>, k: SegmentKey) -> Result<Seq<u8>, Error> {
    match seg_write(acc, k) {
        Err(e) => Err(e),
        Ok(a) => if a.len() + 2 > MAX_PATH_LEN {
            Err(Error::Path(PathError::TooLong))
        } else {
            Ok(a + item_encoding(PathItem::Lww))
        },
    }
}

/// The leaves of a mutation under path bytes `acc`, in order, each one's path
/// and operation, up to the first segment that cannot be written; and that
/// segment's error, if there is one.
pub open spec fn visit(m: Mutation, acc: Seq<u8>) -> (Seq<(Seq<u8>, Op)>, Option<Error>)
    decreases m, 0nat,
{
    match m {
        Mutation::Apply(seg, op) => match leaf_path(acc, seg@) {
            Err(e) => (Seq::empty(), Some(e)),
            Ok(p) => (seq![(p, op)], None),
        },
        Mutation::Nested(seg, ms) => match seg_write(acc, seg@) {
            Err(e) => (Seq::empty(), Some(e)),
            Ok(a) => visit_list(ms@, a),
        },
        Mutation::Compose(ms) => visit_list(ms@, acc),
    }
}

/// The leaves of a list of mutations, each under `acc`, in order, up to the
/// first segment that cannot be written; and that segment's error.
pub open spec fn visit_list(ms: Seq<Mutation>, acc: Seq<u8>) -> (Seq<(Seq<u8>, Op)>, Option<Error>)
    decreases ms, 1nat,
{
    if ms.len() == 0 {
        (Seq::empty(), None)
    } else {
        let (a, e) = visit_list(ms.subrange(0, ms.len() - 1), acc);
        if e is Some {
            (a, e)
        } else {
            let (b, e2) = visit(ms[ms.len() - 1], acc);
            (a + b, e2)
        }
    }
}

/// Once a prefix of the list fails, the whole list gives what the prefix gives.
proof fn lemma_visit_list_err(ms: Seq<Mutation>, k: int, acc: Seq<u8>)
    requires
        0 <= k <= ms.len(),
        visit_list(ms.subrange(0, k), acc).1 is Some,
    ensures
        visit_list(ms, acc) == visit_list(ms.subrange(0, k), acc),
    decreases ms.len() - k,
{
    if k < ms.len() {
        let t = ms.subrange(0, k + 1);
        assert(t.subrange(0, t.len() - 1) =~= ms.subrange(0, k));
        lemma_visit_list_err(ms, k + 1, acc);
    } else {
        assert(ms.subrange(0, k) =~= ms);
    }
}

/// Whether a segment can be written at all: a field with no control byte,
/// or a well-formed, non-empty fractional index.
pub open spec fn seg_valid(k: SegmentKey) -> bool {
    match k {
        SegmentKey::Field(chars) => field_bytes_valid(encode_utf8(chars)),
        SegmentKey::Index(b) => index_prefix_len(b) == Some(b.len()) && b.len() > 0,
    }
}

/// The bytes a segment takes in a path, its delimiter included.
pub open spec fn seg_len(k: SegmentKey) -> nat {
    match k {
        SegmentKey::Field(chars) => 1 + encode_utf8(chars).len(),
        SegmentKey::Index(b) => 1 + b.len(),
    }
}

/// Every segment of `m` is valid, and every leaf's path, begun with `n`
/// bytes and closed by its two register bytes, fits `MAX_PATH_LEN`.
pub open spec fn walk_fits(m: Mutation, n: nat) -> bool
    decreases m, 0nat,
{
    match m {
        Mutation::Apply(seg, _) => seg_valid(seg@) && n + seg_len(seg@) + 2 <= MAX_PATH_LEN,
        Mutation::Nested(seg, ms) => seg_valid(seg@) && n + seg_len(seg@) <= MAX_PATH_LEN && walk_fits_list(
            ms@,
            n + seg_len(seg@),
        ),
        Mutation::Compose(ms) => walk_fits_list(ms@, n),
    }
}

/// Each mutation of a list fits under `n` path bytes.
pub open spec fn walk_fits_list(ms: Seq<Mutation>, n: nat) -> bool
    decreases ms, 1nat,
{
    if ms.len() == 0 {
        true
    } else {
        walk_fits_list(ms.subrange(0, ms.len() - 1), n) && walk_fits(ms[ms.len() - 1], n)
    }
}

/// A mutation whose segments are all valid and whose paths all fit is walked
/// to the end: `for_each` hands out every leaf and succeeds.
pub proof fn lemma_walk_succeeds(m: Mutation, acc: Seq<u8>)
    requires
        walk_fits(m, acc.len()),
    ensures
        visit(m, acc).1 is None,
    decreases m, 0nat,
{
    match m {
        Mutation::Apply(seg, _) => {},
        Mutation::Nested(seg, ms) => {
            let a = seg_write(acc, seg@).unwrap();
            assert(a.len() == acc.len() + seg_len(seg@));
            lemma_walk_list_succeeds(ms@, a);
        },
        Mutation::Compose(ms) => {
            lemma_walk_list_succeeds(ms@, acc);
        },
    }
}

/// A list of mutations that all fit is walked to the end.
pub proof fn lemma_walk_list_succeeds(ms: Seq<Mutation>, acc: Seq<u8>)
    requires
        walk_fits_list(ms, acc.len()),
    ensures
        visit_list(ms, acc).1 is None,
    decreases ms, 1nat,
{
    if ms.len() > 0 {
        lemma_walk_list_succeeds(ms.subrange(0, ms.len() - 1), acc);
        lemma_walk_succeeds(ms[ms.len() - 1], acc);
    }
}

/// A walk stops only on a path error: an invalid field, an invalid index, or
/// a path that would grow too long.
pub proof fn lemma_walk_error_kind(m: Mutation, acc: Seq<u8>)
    ensures
        visit(m, acc).1 matches Some(e) ==> e == Error::Path(PathError::InvalidField) || e == Error::Path(
            PathError::InvalidIndex,
        ) || e == Error::Path(PathError::TooLong),
    decreases m, 0nat,
{
    match m {
        Mutation::Apply(seg, _) => {},
        Mutation::Nested(seg, ms) => {
            if let Ok(a) = seg_write(acc, seg@) {
                lemma_walk_list_error_kind(ms@, a);
            }
        },
        Mutation::Compose(ms) => {
            lemma_walk_list_error_kind(ms@, acc);
        },
    }
}

/// A list's walk stops only on a path error.
pub proof fn lemma_walk_list_error_kind(ms: Seq<Mutation>, acc: Seq<u8>)
    ensures
        visit_list(ms, acc).1 matches Some(e) ==> e == Error::Path(PathError::InvalidField) || e
            == Error::Path(PathError::InvalidIndex) || e == Error::Path(PathError::TooLong),
    decreases ms, 1nat,
{
    if ms.len() > 0 {
        lemma_walk_list_error_kind(ms.subrange(0, ms.len() - 1), acc);
        lemma_walk_error_kind(ms[ms.len() - 1], acc);
    }
}

/// The CBOR encoding of a value, as `ciborium` writes it: a function of the
/// value alone.
pub uninterp spec fn cbor_bytes(value: ciborium::value::Value) -> Seq<u8>;

/// The value bytes of a leaf: the CBOR encoding of an assigned value, nothing
/// for a deletion.
pub open spec fn leaf_value(op: Op) -> Seq<u8> {
    match op {
        Op::Assign(v) => cbor_bytes(v),
        Op::Delete => Seq::empty(),
    }
}

/// What `for_each` hands out for leaves: each one's path and value bytes.
pub open spec fn leaf_entries(leaves: Seq<(Seq<u8>, Op)>) -> Seq<(Seq<u8>, Seq<u8>)> {
    leaves.map_values(|l: (Seq<u8>, Op)| (l.0, leaf_value(l.1)))
}

/// The result for an error that may have stopped the walk.
pub open spec fn outcome(e: Option<Error>) -> Result<(), Error> {
    match e {
        Some(x) => Err(x),
        None => Ok(()),
    }
}

pub open spec fn entry_views(v: Seq<(Vec<u8>, Vec<u8>)>) -> Seq<(Seq<u8>, Seq<u8>)> {
    v.map_values(|e: (Vec<u8>, Vec<u8>)| (e.0@, e.1@))
}

/// Calls `ciborium::ser::into_writer` on a fresh buffer and returns the
/// buffer, or the encoder's error message. Claims: writing a `Value` into a
/// `Vec` succeeds, and the bytes are the value's encoding, `cbor_bytes`.
#[verifier::external_body]
fn cbor_encode(value: &ciborium::value::Value) -> (r: Result<Vec<u8>, String>)
    ensures
        r is Ok,
        r matches Ok(b) ==> b@ == cbor_bytes(*value),
{
    let mut buf: Vec<u8> = Vec::new();
    match ciborium::ser::into_writer(value, &mut buf) {
        Ok(()) => Ok(buf),
        Err(e) => Err(e.to_string()),
    }
}

/// Writes one segment after path bytes `acc`.
fn write_segment(acc: &Vec<u8>, seg: &Segment) -> (r: Result<Vec<u8>, Error>)
    ensures
        match r {
            Ok(a) => seg_write(acc@, seg@) == Ok::<Seq<u8>, Error>(a@),
            Err(e) => seg_write(acc@, seg@) == Err::<Seq<u8>, Error>(e),
        },
{
    let copy = acc.clone();
    proof {
        assert(copy@ =~= acc@);
    }
    let mut w = PathWriter::new(copy, acc.len());
    match seg {
        Segment::Field(field) => {
            let s = field.as_str();
            w.push_field(s)?;
            Ok(w.finish())
        },
        Segment::FractionalIndex(index) => {
            match FractionalIndex::from_bytes(index.as_slice()) {
                Some((_, n)) => {
                    if n != index.len() || n == 0 {
                        return Err(Error::Path(PathError::InvalidIndex));
                    }
                },
                None => return Err(Error::Path(PathError::InvalidIndex)),
            }
            w.push_index(FractionalIndex::new(index.as_slice()))?;
            Ok(w.finish())
        },
    }
}

impl Mutation {
    /// A mutation that applies `operation` to `segment`.
    pub fn assign(segment: Segment, operation: Op) -> (r: Mutation)
        ensures
            r == Mutation::Apply(segment, operation),
    {
        Mutation::Apply(segment, operation)
    }

    /// A mutation that steps into a segment and applies inner mutations.
    pub fn nested(segment: Segment, mutations: Vec<Mutation>) -> (r: Mutation)
        ensures
            r == Mutation::Nested(segment, mutations),
    {
        Mutation::Nested(segment, mutations)
    }

    /// A mutation that applies `mutations` one after another.
    pub fn compose(mutations: Vec<Mutation>) -> (r: Mutation)
        ensures
            r == Mutation::Compose(mutations),
    {
        Mutation::Compose(mutations)
    }

    /// Hands out every leaf of this mutation, in order, by appending it to
    /// `out`: its path (closed as a last-write-wins register) and its value
    /// (CBOR; empty for a deletion). Stops at the first segment that cannot be
    /// written, with its error; the leaves before it are handed out.
    pub fn for_each(&self, out: &mut Vec<(Vec<u8>, Vec<u8>)>) -> (r: Result<(), Error>)
        ensures
            entry_views(final(out)@) == entry_views(old(out)@) + leaf_entries(visit(*self, Seq::empty()).0),
            r == outcome(visit(*self, Seq::empty()).1),
    {
        let acc: Vec<u8> = Vec::new();
        proof {
            assert(acc@ =~= Seq::<u8>::empty());
        }
        self.for_each_internal(&acc, out)
    }

    fn for_each_internal(&self, acc: &Vec<u8>, out: &mut Vec<(Vec<u8>, Vec<u8>)>) -> (r: Result<(), Error>)
        ensures
            entry_views(final(out)@) == entry_views(old(out)@) + leaf_entries(visit(*self, acc@).0),
            r == outcome(visit(*self, acc@).1),
        decreases self, 0nat,
    {
        proof {
            assert(entry_views(old(out)@) + leaf_entries(Seq::empty()) =~= entry_views(old(out)@));
        }
        match self {
            Mutation::Apply(segment, op) => {
                let a = write_segment(acc, segment)?;
                let value = match op {
                    Op::Delete => Vec::new(),
                    Op::Assign(v) => match cbor_encode(v) {
                        Ok(b) => b,
                        Err(msg) => return Err(Error::Cbor(msg)),
                    },
                };
                let alen = a.len();
                let path = PathWriter::new(a, alen).lww()?;
                let ghost before = out@;
                let ghost pv = path@;
                let ghost vv = value@;
                out.push((path, value));
                proof {
                    assert(vv == leaf_value(*op));
                    assert(entry_views(out@) =~= entry_views(before) + leaf_entries(seq![(pv, *op)]));
                }
                Ok(())
            },
            Mutation::Nested(segment, ms) => {
                let a = write_segment(acc, segment)?;
                Self::for_each_list(ms, &a, out)
            },
            Mutation::Compose(ms) => Self::for_each_list(ms, acc, out),
        }
    }

    fn for_each_list(ms: &Vec<Mutation>, acc: &Vec<u8>, out: &mut Vec<(Vec<u8>, Vec<u8>)>) -> (r: Result<(), Error>)
        ensures
            entry_views(final(out)@) == entry_views(old(out)@) + leaf_entries(visit_list(ms@, acc@).0),
            r == outcome(visit_list(ms@, acc@).1),
        decreases ms, 1nat,
    {
        let mut i: usize = 0;
        let ghost start = entry_views(out@);
        proof {
            assert(ms@.subrange(0, 0) =~= Seq::<Mutation>::empty());
            assert(start + leaf_entries(Seq::empty()) =~= start);
        }
        while i < ms.len()
            invariant
                i <= ms.len(),
                entry_views(old(out)@) == start,
                visit_list(ms@.subrange(0, i as int), acc@).1 is None,
                entry_views(out@) == start + leaf_entries(visit_list(ms@.subrange(0, i as int), acc@).0),
            decreases ms.len() - i,
        {
            let ghost before = entry_views(out@);
            let ghost done = visit_list(ms@.subrange(0, i as int), acc@).0;
            proof {
                assert(decreases_to!(ms => ms@));
                assert(decreases_to!(ms@ => ms@[i as int]));
            }
            let res = ms[i].for_each_internal(acc, out);
            let ghost t = ms@.subrange(0, i + 1);
            let ghost leaves = visit(ms@[i as int], acc@).0;
            proof {
                assert(t.subrange(0, t.len() - 1) =~= ms@.subrange(0, i as int));
                assert(t[t.len() - 1] == ms@[i as int]);
                assert(visit_list(t, acc@).0 == done + leaves);
                assert(leaf_entries(done + leaves) =~= leaf_entries(done) + leaf_entries(leaves));
                assert(entry_views(out@) =~= start + leaf_entries(done + leaves));
            }
            match res {
                Err(e) => {
                    proof {
                        lemma_visit_list_err(ms@, i + 1, acc@);
                    }
                    return Err(e);
                },
                Ok(()) => {},
            }
            i = i + 1;
        }
        proof {
            assert(ms@.subrange(0, ms@.len() as int) =~= ms@);
        }
        Ok(())
    }
}

} // verus!
