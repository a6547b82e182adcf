//! Last-write-wins registers: a timestamp and a peer id in front of a value.
use crate::be::{be_u32_read, be_u64_read};
use crate::bytes::{be_seq, be_value};
use crate::hlc::Timestamp;
use crate::pid::PID;
use crate::Error;
use vstd::prelude::*;

verus! {

/// The order key of a register: its timestamp, then its peer id, both read
/// big-endian from the first twelve bytes.
pub open spec fn header_key(b: Seq<u8>) -> (nat, nat) {
    (be_value(b.subrange(0, 8)), be_value(b.subrange(8, 12)))
}

/// Whether key `a` sorts above key `b`.
pub open spec fn key_gt(a: (nat, nat), b: (nat, nat)) -> bool {
    a.0 > b.0 || (a.0 == b.0 && a.1 > b.1)
}

/// The register that merging keeps: the left one when its header is higher,
/// else the right one.
pub open spec fn merged(left: Seq<u8>, right: Seq<u8>) -> Seq<u8> {
    if key_gt(header_key(left), header_key(right)) {
        left
    } else {
        right
    }
}

/// Last-write-wins register header, used to compare values subject to merge.
#[derive(Debug, Clone, Copy, PartialEq, Eq, Structural, PartialOrd, Ord)]
pub struct LWWHeader {
    timestamp: Timestamp,
    pid: PID,
}

impl LWWHeader {
    /// Size of a header in bytes.
    pub const SIZE: usize = 12;

    #[inline]
    pub fn new(timestamp: Timestamp, pid: PID) -> (r: LWWHeader)
        ensures
            r.timestamp_spec() == timestamp,
            r.pid_spec() == pid,
    {
        LWWHeader { timestamp, pid }
    }

    pub closed spec fn timestamp_spec(&self) -> Timestamp {
        self.timestamp
    }

    pub closed spec fn pid_spec(&self) -> PID {
        self.pid
    }

    /// Returns a hybrid logical timestamp of the current register.
    #[inline]
    pub fn timestamp(&self) -> (r: Timestamp)
        ensures
            r == self.timestamp_spec(),
    {
        self.timestamp
    }

    /// Returns the PID of the last peer that updated the register.
    #[inline]
    pub fn pid(&self) -> (r: PID)
        ensures
            r == self.pid_spec(),
    {
        self.pid
    }

    /// The twelve bytes of this header: timestamp, then peer id, big-endian.
    pub fn to_bytes(&self) -> (r: Vec<u8>)
        ensures
            r@ == be_seq(self.timestamp_spec()@ as nat, 8) + be_seq(self.pid_spec()@ as nat, 4),
    {
        let mut out = self.timestamp.to_bytes();
        let p = self.pid.to_bytes();
        out.extend_from_slice(p.as_slice());
        out
    }

    /// Merges two registers, each a header followed by its value. Returns
    /// the register that is logically higher: by timestamp, then (when the
    /// timestamps are equal) by peer id; the right one on a tie.
    pub fn merge<'a>(left: &'a [u8], right: &'a [u8]) -> (r: Result<&'a [u8], Error>)
        ensures
            match r {
                Ok(x) => left@.len() >= 12 && right@.len() >= 12 && x@ == merged(left@, right@),
                Err(e) => (left@.len() < 12 || right@.len() < 12) && e == Error::ZeroCopy,
            },
    {
        if left.len() < 12 || right.len() < 12 {
            return Err(Error::ZeroCopy);
        }
        let lt = be_u64_read(&left[0..8]).unwrap();
        let lp = be_u32_read(&left[8..12]).unwrap();
        let rt = be_u64_read(&right[0..8]).unwrap();
        let rp = be_u32_read(&right[8..12]).unwrap();
        if lt > rt || (lt == rt && lp > rp) {
            Ok(left)
        } else {
            Ok(right)
        }
    }
}

/// Merging picks the register with the higher header whichever side it is on.
pub proof fn lemma_merge_commutative(a: Seq<u8>, b: Seq<u8>)
    requires
        header_key(a) != header_key(b),
    ensures
        merged(a, b) == merged(b, a),
{
}

/// Merging is associative: three registers merge to the same one in either
/// grouping.
pub proof fn lemma_merge_associative(a: Seq<u8>, b: Seq<u8>, c: Seq<u8>)
    requires
        a.len() >= 12 && b.len() >= 12 && c.len() >= 12,
    ensures
        merged(merged(a, b), c) == merged(a, merged(b, c)),
{
}

} // verus!
