//! Reading paths back segment by segment.
use crate::bytes::be_value;
use crate::path::lseq::{index_prefix_len, lemma_index_prefix_len_bound, FractionalIndex};
use crate::path::{
    Field, PathError, PathItem, PathSegment, Terminator, DELIMITER, TERMINATOR_CHUNKED,
    TERMINATOR_COUNTER, TERMINATOR_LWW,
};
use crate::pid::PID;
use crate::text::utf8_str;
use crate::varint::{lemma_varint_decode_facts, varint_decode, VarInt};
use vstd::prelude::*;
use vstd::string::StringSliceAdditionalSpecFns;
use vstd::utf8::valid_utf8;

verus! {

/// Length of the field at the front of `t`: the bytes before the next delimiter.
pub open spec fn field_len(t: Seq<u8>) -> nat
    decreases t.len(),
{
    if t.len() == 0 {
        0
    } else if t[0] == DELIMITER {
        0
    } else {
        1 + field_len(t.drop_first())
    }
}

/// One step of the reader over the bytes `b` not read yet: nothing once fewer
/// than two bytes are left, else the segment (or error) at the front and the
/// bytes left after it.
pub open spec fn read_step(b: Seq<u8>) -> Option<(Result<PathItem, PathError>, Seq<u8>)> {
    if b.len() < 2 {
        None
    } else if b[0] != DELIMITER {
        Some((Err(PathError::Delimiter(b[0])), b))
    } else {
        let t = b.subrange(1, b.len() as int);
        let d = t[0];
        if d == TERMINATOR_CHUNKED {
            let u = t.subrange(1, t.len() as int);
            match varint_decode(u, 8) {
                None => Some((Err(PathError::VarInt), u)),
                Some((v, n)) => Some(
                    (Ok(PathItem::Chunked(v as u64)), u.subrange(n as int, u.len() as int)),
                ),
            }
        } else if d == TERMINATOR_LWW {
            Some((Ok(PathItem::Lww), Seq::empty()))
        } else if d == TERMINATOR_COUNTER {
            let u = t.subrange(1, t.len() as int);
            if u.len() == 4 && be_value(u) != 0 {
                Some((Ok(PathItem::Counter(be_value(u) as u32)), Seq::empty()))
            } else {
                Some((Err(PathError::VarInt), u))
            }
        } else if 1 <= d < 17 {
            match index_prefix_len(t) {
                None => Some((Err(PathError::InvalidIndex), t)),
                Some(k) => Some(
                    (
                        Ok(PathItem::Index(t.subrange(0, k as int))),
                        t.subrange(k as int, t.len() as int),
                    ),
                ),
            }
        } else if 17 <= d < 32 {
            Some((Err(PathError::Delimiter(d)), t))
        } else {
            let k = field_len(t);
            if valid_utf8(t.subrange(0, k as int)) {
                Some((Ok(PathItem::Field(t.subrange(0, k as int))), t.subrange(k as int, t.len() as int)))
            } else {
                Some((Err(PathError::InvalidField), t.subrange(k as int, t.len() as int)))
            }
        }
    }
}

/// Everything the reader yields from `b`, up to and including the first error.
pub open spec fn read_path(b: Seq<u8>) -> Seq<Result<PathItem, PathError>>
    decreases b.len(),
{
    match read_step(b) {
        None => Seq::empty(),
        Some((Err(e), _)) => seq![Err(e)],
        Some((Ok(x), rest)) => if rest.len() < b.len() {
            seq![Ok(x)] + read_path(rest)
        } else {
            seq![Ok(x)]
        },
    }
}

/// The segments read, or the first error.
pub open spec fn path_result(rs: Seq<Result<PathItem, PathError>>) -> Result<Seq<PathItem>, PathError>
    decreases rs.len(),
{
    if rs.len() == 0 {
        Ok(Seq::empty())
    } else {
        match rs[0] {
            Err(e) => Err(e),
            Ok(x) => match path_result(rs.drop_first()) {
                Err(e) => Err(e),
                Ok(xs) => Ok(seq![x] + xs),
            },
        }
    }
}

/// The plain value of what the reader yields.
pub open spec fn result_view<'a>(r: Result<PathSegment<'a>, PathError>) -> Result<PathItem, PathError> {
    match r {
        Ok(s) => Ok(s@),
        Err(e) => Err(e),
    }
}

pub open spec fn segment_views<'a>(v: Seq<PathSegment<'a>>) -> Seq<PathItem> {
    v.map_values(|s: PathSegment<'a>| s@)
}

/// Reads the segments of a path.
pub struct PathReader<'a> {
    buf: &'a [u8],
}

impl<'a> PathReader<'a> {
    pub fn new(buf: &'a [u8]) -> (r: PathReader<'a>)
        ensures
            r.remaining() == buf@,
    {
        PathReader { buf }
    }

    /// The bytes not read yet.
    pub closed spec fn remaining(&self) -> Seq<u8> {
        self.buf@
    }

    fn read_field(t: &'a [u8]) -> (r: (Result<Field<'a>, PathError>, &'a [u8]))
        ensures
            ({
                let k = field_len(t@);
                &&& r.1@ == t@.subrange(k as int, t@.len() as int)
                &&& match r.0 {
                    Ok(f) => valid_utf8(t@.subrange(0, k as int)) && f@ == t@.subrange(0, k as int),
                    Err(e) => !valid_utf8(t@.subrange(0, k as int)) && e == PathError::InvalidField,
                }
            }),
    {
        let mut i: usize = 0;
        proof {
            assert(t@.subrange(0, t@.len() as int) =~= t@);
        }
        while i < t.len() && t[i] != DELIMITER
            invariant
                i <= t.len(),
                field_len(t@) == i + field_len(t@.subrange(i as int, t@.len() as int)),
            decreases t.len() - i,
        {
            proof {
                assert(t@.subrange(i as int, t@.len() as int).drop_first() =~= t@.subrange(
                    i + 1,
                    t@.len() as int,
                ));
            }
            i = i + 1;
        }
        let l = &t[0..i];
        let r = &t[i..t.len()];
        match utf8_str(l) {
            Some(s) => (Ok(Field::from_checked(s)), r),
            None => (Err(PathError::InvalidField), r),
        }
    }

    /// The next segment of the path, or the error that stops it; nothing once
    /// fewer than two bytes are left.
    pub fn next(&mut self) -> (r: Option<Result<PathSegment<'a>, PathError>>)
        ensures
            match (r, read_step(old(self).remaining())) {
                (None, None) => final(self).remaining() == old(self).remaining(),
                (Some(x), Some((y, rest))) => result_view(x) == y && final(self).remaining() == rest,
                _ => false,
            },
    {
        if self.buf.len() < 2 {
            return None;
        }
        let delim = self.buf[0];
        if delim != DELIMITER {
            return Some(Err(PathError::Delimiter(delim)));
        }
        let t = &self.buf[1..self.buf.len()];
        let d = t[0];
        if d == TERMINATOR_CHUNKED {
            let u = &t[1..t.len()];
            match <u64 as VarInt>::read_from(u) {
                None => {
                    self.buf = u;
                    Some(Err(PathError::VarInt))
                },
                Some((end_index, n)) => {
                    proof {
                        lemma_varint_decode_facts(u@, 8);
                    }
                    self.buf = &u[n..u.len()];
                    Some(Ok(PathSegment::Tail(Terminator::Chunked(end_index))))
                },
            }
        } else if d == TERMINATOR_LWW {
            let empty: &[u8] = &[];
            proof {
                assert(empty@ =~= Seq::<u8>::empty());
            }
            self.buf = empty;
            Some(Ok(PathSegment::Tail(Terminator::LWW)))
        } else if d == TERMINATOR_COUNTER {
            let u = &t[1..t.len()];
            match PID::parse(u) {
                None => {
                    self.buf = u;
                    Some(Err(PathError::VarInt))
                },
                Some(pid) => {
                    let empty: &[u8] = &[];
                    proof {
                        assert(empty@ =~= Seq::<u8>::empty());
                    }
                    self.buf = empty;
                    Some(Ok(PathSegment::Tail(Terminator::Counter(pid))))
                },
            }
        } else if 1 <= d && d < 17 {
            match FractionalIndex::from_bytes(t) {
                None => {
                    self.buf = t;
                    Some(Err(PathError::InvalidIndex))
                },
                Some((index, n)) => {
                    proof {
                        lemma_index_prefix_len_bound(t@);
                    }
                    self.buf = &t[n..t.len()];
                    Some(Ok(PathSegment::Index(index)))
                },
            }
        } else if 17 <= d && d < 32 {
            self.buf = t;
            Some(Err(PathError::Delimiter(d)))
        } else {
            let (f, rest) = Self::read_field(t);
            self.buf = rest;
            match f {
                Ok(f) => Some(Ok(PathSegment::Field(f))),
                Err(e) => Some(Err(e)),
            }
        }
    }

    /// Reads every segment of the path; the first error stops the reading.
    pub fn read_all(self) -> (r: Result<Vec<PathSegment<'a>>, PathError>)
        ensures
            match r {
                Ok(v) => path_result(read_path(self.remaining())) == Ok::<Seq<PathItem>, PathError>(
                    segment_views(v@),
                ),
                Err(e) => path_result(read_path(self.remaining())) == Err::<Seq<PathItem>, PathError>(e),
            },
    {
        let mut reader = self;
        let mut out: Vec<PathSegment<'a>> = Vec::new();
        proof {
            assert(segment_views(out@) =~= Seq::<PathItem>::empty());
        }
        loop
            invariant
                path_result(read_path(self.remaining())) == match path_result(
                    read_path(reader.remaining()),
                ) {
                    Ok(xs) => Ok(segment_views(out@) + xs),
                    Err(e) => Err(e),
                },
            decreases reader.remaining().len(),
        {
            let ghost before = reader.remaining();
            match reader.next() {
                None => {
                    proof {
                        assert(read_path(before) =~= Seq::<Result<PathItem, PathError>>::empty());
                        assert(segment_views(out@) + Seq::<PathItem>::empty() =~= segment_views(
                            out@,
                        ));
                    }
                    return Ok(out);
                },
                Some(Err(e)) => {
                    proof {
                        assert(read_path(before) == seq![Err::<PathItem, PathError>(e)]);
                        assert(seq![Err::<PathItem, PathError>(e)].drop_first().len() == 0);
                    }
                    return Err(e);
                },
                Some(Ok(s)) => {
                    let ghost after = reader.remaining();
                    proof {
                        lemma_read_step_shrinks(before);
                        assert(read_path(before) == seq![Ok::<PathItem, PathError>(s@)] + read_path(
                            after,
                        ));
                        lemma_path_result_cons(s@, read_path(after));
                        assert(segment_views(out@.push(s)) =~= segment_views(out@).push(s@));
                        match path_result(read_path(after)) {
                            Ok(xs) => {
                                assert(segment_views(out@) + (seq![s@] + xs) =~= segment_views(
                                    out@,
                                ).push(s@) + xs);
                            },
                            Err(_) => {},
                        }
                    }
                    out.push(s);
                },
            }
        }
    }
}

proof fn lemma_path_result_cons(x: PathItem, rs: Seq<Result<PathItem, PathError>>)
    ensures
        path_result(seq![Ok(x)] + rs) == match path_result(rs) {
            Ok(xs) => Ok(seq![x] + xs),
            Err(e) => Err(e),
        },
{
    assert((seq![Ok(x)] + rs).drop_first() =~= rs);
}

pub proof fn lemma_field_len_bound(t: Seq<u8>)
    ensures
        field_len(t) <= t.len(),
    decreases t.len(),
{
    if t.len() > 0 && t[0] != DELIMITER {
        lemma_field_len_bound(t.drop_first());
    }
}

/// A segment read successfully takes at least one byte.
pub proof fn lemma_read_step_shrinks(b: Seq<u8>)
    ensures
        read_step(b) matches Some((Ok(_), rest)) ==> rest.len() < b.len(),
{
    if b.len() >= 2 && b[0] == DELIMITER {
        let t = b.subrange(1, b.len() as int);
        let u = t.subrange(1, t.len() as int);
        if varint_decode(u, 8) is Some {
            lemma_varint_decode_facts(u, 8);
        }
        lemma_index_prefix_len_bound(t);
        lemma_field_len_bound(t);
    }
}

} // verus!
