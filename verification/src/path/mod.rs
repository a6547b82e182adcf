//! Document paths: fields and fractional indices, each behind a delimiter
//! byte, closed by a terminator.
use crate::bytes::be_seq;
use crate::path::lseq::FractionalIndex;
use crate::pid::PID;
use crate::varint::varint_encoding;
use vstd::prelude::*;
use vstd::string::StringSliceAdditionalSpecFns;

pub mod laws;
pub mod lseq;
pub mod lww;
pub mod read;
pub mod write;

verus! {

/// Byte that opens every path segment.
pub const DELIMITER: u8 = 0;

/// Tail marker of a distributed counter path.
pub const TERMINATOR_COUNTER: u8 = 0b11101;

/// Tail marker of a last-write-wins path.
pub const TERMINATOR_LWW: u8 = 0b11110;

/// Tail marker of a chunked path.
pub const TERMINATOR_CHUNKED: u8 = 0b11111;

/// Longest path, in bytes.
pub const MAX_PATH_LEN: usize = 32767;

#[derive(Debug, Clone, Copy, PartialEq, Eq, Structural)]
pub enum PathError {
    /// Unsupported delimiter.
    Delimiter(u8),
    /// A variable integer could not be parsed.
    VarInt,
    /// A field holds bytes below 32 (or is not UTF-8).
    InvalidField,
    /// Bytes that do not form a fractional index.
    InvalidIndex,
    /// The path would exceed `MAX_PATH_LEN` bytes.
    TooLong,
}

/// A path segment as plain values.
pub enum PathItem {
    Field(Seq<u8>),
    Index(Seq<u8>),
    Counter(u32),
    Lww,
    Chunked(u64),
}

/// The bytes of one path segment.
pub open spec fn item_encoding(it: PathItem) -> Seq<u8> {
    match it {
        PathItem::Field(b) => seq![DELIMITER] + b,
        PathItem::Index(b) => seq![DELIMITER] + b,
        PathItem::Counter(p) => seq![DELIMITER, TERMINATOR_COUNTER] + be_seq(p as nat, 4),
        PathItem::Lww => seq![DELIMITER, TERMINATOR_LWW],
        PathItem::Chunked(e) => seq![DELIMITER, TERMINATOR_CHUNKED] + varint_encoding(e as nat),
    }
}

/// The bytes of segments written one after another.
pub open spec fn items_encoding(items: Seq<PathItem>) -> Seq<u8>
    decreases items.len(),
{
    if items.len() == 0 {
        Seq::empty()
    } else {
        items_encoding(items.drop_last()) + item_encoding(items.last())
    }
}

/// Field bytes are human readable: none is below 32.
pub open spec fn field_bytes_valid(b: Seq<u8>) -> bool {
    forall|i: int| 0 <= i < b.len() ==> #[trigger] b[i] >= 32
}

/// Individual path segment.
#[derive(Debug, Clone, PartialEq, Eq, Hash)]
pub enum PathSegment<'a> {
    /// String field.
    Field(Field<'a>),
    /// Fractional index.
    Index(FractionalIndex<'a>),
    /// Special tail case (always at the end of the path).
    Tail(Terminator),
}

impl<'a> View for PathSegment<'a> {
    type V = PathItem;

    open spec fn view(&self) -> PathItem {
        match self {
            PathSegment::Field(f) => PathItem::Field(f@),
            PathSegment::Index(i) => PathItem::Index(i@),
            PathSegment::Tail(t) => t@,
        }
    }
}

#[derive(Debug, Clone, PartialEq, Eq, Hash)]
pub enum Terminator {
    /// Distributed CRDT counter segment.
    Counter(PID),
    /// Last-Write Wins field.
    LWW,
    /// Chunked field (also resolved as last-write wins).
    Chunked(u64),
}

impl View for Terminator {
    type V = PathItem;

    open spec fn view(&self) -> PathItem {
        match self {
            Terminator::Counter(p) => PathItem::Counter(p@),
            Terminator::LWW => PathItem::Lww,
            Terminator::Chunked(e) => PathItem::Chunked(*e),
        }
    }
}

/// A path field: a string with no byte below 32.
#[derive(Debug, Clone, Copy, PartialEq, Eq, PartialOrd, Ord, Hash)]
pub struct Field<'a> {
    s: &'a str,
}

impl<'a> View for Field<'a> {
    type V = Seq<u8>;

    closed spec fn view(&self) -> Seq<u8> {
        self.s.spec_bytes()
    }
}

impl<'a> Field<'a> {
    /// A field of `s`, refused when `s` holds a byte below 32.
    pub fn new(s: &'a str) -> (r: Result<Field<'a>, PathError>)
        ensures
            match r {
                Ok(f) => field_bytes_valid(s.spec_bytes()) && f@ == s.spec_bytes() && f.as_str_spec()
                    == s,
                Err(e) => !field_bytes_valid(s.spec_bytes()) && e == PathError::InvalidField,
            },
    {
        if Self::is_valid(s) {
            Ok(Field { s })
        } else {
            Err(PathError::InvalidField)
        }
    }

    /// The string of this field.
    pub closed spec fn as_str_spec(&self) -> &'a str {
        self.s
    }

    /// Wraps a string whose bytes are known to be valid, as a parse found them.
    pub(crate) fn from_checked(s: &'a str) -> (r: Field<'a>)
        ensures
            r@ == s.spec_bytes(),
            r.as_str_spec() == s,
    {
        Field { s }
    }

    /// The string of this field.
    pub fn as_str(&self) -> (r: &'a str)
        ensures
            r == self.as_str_spec(),
            r.spec_bytes() == self@,
    {
        self.s
    }

    /// Whether no byte of `s` is below 32.
    pub fn is_valid(s: &str) -> (r: bool)
        ensures
            r == field_bytes_valid(s.spec_bytes()),
    {
        let b = s.as_bytes();
        let mut i: usize = 0;
        while i < b.len()
            invariant
                i <= b@.len(),
                b@ == s.spec_bytes(),
                forall|j: int| 0 <= j < i ==> #[trigger] b@[j] >= 32,
            decreases b.len() - i,
        {
            if b[i] < 32 {
                return false;
            }
            i = i + 1;
        }
        true
    }
}

} // verus!
