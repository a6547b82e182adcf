//! Writing paths segment by segment, within the length limit.
use crate::path::lseq::FractionalIndex;
use crate::path::{
    field_bytes_valid, item_encoding, Field, PathError, PathItem, DELIMITER, MAX_PATH_LEN,
    TERMINATOR_CHUNKED, TERMINATOR_COUNTER, TERMINATOR_LWW,
};
use crate::pid::PID;
use crate::varint::{lemma_encoding_len, lemma_pow256_16, VarInt};
use crate::Error;
use vstd::prelude::*;
use vstd::string::StringSliceAdditionalSpecFns;

verus! {

/// Encodes a path into a byte buffer. Tracks the bytes written to enforce
/// the `MAX_PATH_LEN` limit.
#[derive(Debug)]
pub struct PathWriter {
    writer: Vec<u8>,
    written: usize,
}

impl PathWriter {
    /// The bytes in the buffer.
    pub closed spec fn contents(&self) -> Seq<u8> {
        self.writer@
    }

    /// The bytes counted toward the length limit.
    pub closed spec fn written(&self) -> nat {
        self.written as nat
    }

    /// A writer that appends to `writer`, counting `written` bytes as already used.
    pub fn new(writer: Vec<u8>, written: usize) -> (r: PathWriter)
        ensures
            r.contents() == writer@,
            r.written() == written,
    {
        PathWriter { writer, written }
    }

    /// Refuses to grow past the length limit.
    fn ensure_capacity(&self, additional: usize) -> (r: Result<(), Error>)
        ensures
            r is Ok <==> self.written() + additional <= MAX_PATH_LEN,
            r matches Err(e) ==> e == Error::Path(PathError::TooLong),
    {
        if additional > MAX_PATH_LEN || self.written > MAX_PATH_LEN - additional {
            Err(Error::Path(PathError::TooLong))
        } else {
            Ok(())
        }
    }

    /// Appends a field. Bytes below 32 are refused, and so is a field that
    /// would take the path past the limit.
    pub fn push_field(&mut self, field: &str) -> (r: Result<(), Error>)
        ensures
            match r {
                Ok(()) => field_bytes_valid(field.spec_bytes()) && old(self).written() + 1
                    + field.spec_bytes().len() <= MAX_PATH_LEN && final(self).contents() == old(
                    self,
                ).contents() + item_encoding(PathItem::Field(field.spec_bytes()))
                    && final(self).written() == old(self).written() + 1 + field.spec_bytes().len(),
                Err(e) => *final(self) == *old(self) && if field_bytes_valid(field.spec_bytes()) {
                    e == Error::Path(PathError::TooLong) && old(self).written() + 1
                        + field.spec_bytes().len() > MAX_PATH_LEN
                } else {
                    e == Error::Path(PathError::InvalidField)
                },
            },
    {
        let f = match Field::new(field) {
            Ok(f) => f,
            Err(e) => return Err(Error::Path(e)),
        };
        let bytes = f.as_str().as_bytes();
        if bytes.len() >= MAX_PATH_LEN {
            return Err(Error::Path(PathError::TooLong));
        }
        let len = 1 + bytes.len();
        self.ensure_capacity(len)?;
        self.writer.push(DELIMITER);
        self.writer.extend_from_slice(bytes);
        self.written = self.written + len;
        proof {
            assert(old(self).contents().push(DELIMITER) + bytes@ =~= old(self).contents()
                + item_encoding(PathItem::Field(field.spec_bytes())));
        }
        Ok(())
    }

    /// Appends a fractional index, unless it would take the path past the limit.
    pub fn push_index(&mut self, index: FractionalIndex<'_>) -> (r: Result<(), Error>)
        ensures
            match r {
                Ok(()) => old(self).written() + 1 + index@.len() <= MAX_PATH_LEN
                    && final(self).contents() == old(self).contents() + item_encoding(
                    PathItem::Index(index@),
                ) && final(self).written() == old(self).written() + 1 + index@.len(),
                Err(e) => *final(self) == *old(self) && e == Error::Path(PathError::TooLong)
                    && old(self).written() + 1 + index@.len() > MAX_PATH_LEN,
            },
    {
        let bytes = index.bytes();
        if bytes.len() >= MAX_PATH_LEN {
            return Err(Error::Path(PathError::TooLong));
        }
        let len = 1 + bytes.len();
        self.ensure_capacity(len)?;
        self.writer.push(DELIMITER);
        self.writer.extend_from_slice(bytes);
        self.written = self.written + len;
        proof {
            assert(old(self).contents().push(DELIMITER) + bytes@ =~= old(self).contents()
                + item_encoding(PathItem::Index(index@)));
        }
        Ok(())
    }

    /// Finalizes the path as a last-write-wins register.
    pub fn lww(self) -> (r: Result<Vec<u8>, Error>)
        ensures
            match r {
                Ok(v) => self.written() + 2 <= MAX_PATH_LEN && v@ == self.contents()
                    + item_encoding(PathItem::Lww),
                Err(e) => e == Error::Path(PathError::TooLong) && self.written() + 2
                    > MAX_PATH_LEN,
            },
    {
        self.ensure_capacity(2)?;
        let mut w = self.writer;
        w.push(DELIMITER);
        w.push(TERMINATOR_LWW);
        proof {
            assert(self.contents().push(DELIMITER).push(TERMINATOR_LWW) =~= self.contents()
                + item_encoding(PathItem::Lww));
        }
        Ok(w)
    }

    /// Finalizes the path as chunked content ending at `end_index`.
    pub fn lww_chunked(self, end_index: u64) -> (r: Result<Vec<u8>, Error>)
        ensures
            match r {
                Ok(v) => self.written() + item_encoding(PathItem::Chunked(end_index)).len()
                    <= MAX_PATH_LEN && v@ == self.contents() + item_encoding(
                    PathItem::Chunked(end_index),
                ),
                Err(e) => e == Error::Path(PathError::TooLong) && self.written()
                    + item_encoding(PathItem::Chunked(end_index)).len() > MAX_PATH_LEN,
            },
    {
        let mut tail: Vec<u8> = Vec::new();
        tail.push(DELIMITER);
        tail.push(TERMINATOR_CHUNKED);
        end_index.write(&mut tail);
        proof {
            lemma_pow256_16();
            lemma_encoding_len(end_index as nat);
            assert(tail@ =~= item_encoding(PathItem::Chunked(end_index)));
        }
        self.ensure_capacity(tail.len())?;
        let mut w = self.writer;
        w.extend_from_slice(tail.as_slice());
        Ok(w)
    }

    /// Finalizes the path as a distributed counter of peer `pid`.
    pub fn counter(self, pid: PID) -> (r: Result<Vec<u8>, Error>)
        ensures
            match r {
                Ok(v) => self.written() + 6 <= MAX_PATH_LEN && v@ == self.contents()
                    + item_encoding(PathItem::Counter(pid@)),
                Err(e) => e == Error::Path(PathError::TooLong) && self.written() + 6
                    > MAX_PATH_LEN,
            },
    {
        self.ensure_capacity(6)?;
        let mut w = self.writer;
        w.push(DELIMITER);
        w.push(TERMINATOR_COUNTER);
        let b = pid.to_bytes();
        w.extend_from_slice(b.as_slice());
        proof {
            assert(self.contents().push(DELIMITER).push(TERMINATOR_COUNTER) + b@ =~= self.contents()
                + item_encoding(PathItem::Counter(pid@)));
        }
        Ok(w)
    }

    /// The bytes written so far, without a terminator.
    #[inline]
    pub fn finish(self) -> (r: Vec<u8>)
        ensures
            r@ == self.contents(),
    {
        self.writer
    }
}

} // verus!
