//! Peer identifiers.
use crate::be::{be_u32_bytes, be_u32_read};
use crate::bytes::{be_seq, be_value};
use vstd::prelude::*;

verus! {

/// Globally unique peer identifier. A PID is stored locally and reused across
/// calls. A PID is never `0`.
#[derive(Debug, Clone, Copy, PartialEq, Eq, Structural, PartialOrd, Ord, Hash)]
pub struct PID {
    id: u32,
}

impl View for PID {
    type V = u32;

    closed spec fn view(&self) -> u32 {
        self.id
    }
}

impl PID {
    #[verifier::type_invariant]
    spec fn non_zero(self) -> bool {
        self.id != 0
    }

    /// Reads a PID from exactly four big-endian bytes; zero is refused.
    pub fn parse(bytes: &[u8]) -> (r: Option<PID>)
        ensures
            r is Some <==> bytes@.len() == 4 && be_value(bytes@) != 0,
            r matches Some(p) ==> p@ as nat == be_value(bytes@),
    {
        match be_u32_read(bytes) {
            Some(v) => PID::new(v),
            None => None,
        }
    }

    /// Wraps a non-zero number; zero is refused.
    pub fn new(pid: u32) -> (r: Option<PID>)
        ensures
            r is Some <==> pid != 0,
            r matches Some(p) ==> p@ == pid,
    {
        if pid == 0 {
            None
        } else {
            Some(PID { id: pid })
        }
    }

    /// A random PID: any non-zero number.
    pub fn random() -> (r: PID)
        ensures
            r@ != 0,
    {
        PID { id: random_non_zero_u32() }
    }

    /// The number this PID stands for.
    pub fn get(&self) -> (r: u32)
        ensures
            r == self@,
            r != 0,
    {
        proof {
            use_type_invariant(self);
        }
        self.id
    }

    /// The four big-endian bytes of this PID.
    pub fn to_bytes(&self) -> (r: Vec<u8>)
        ensures
            r@ == be_seq(self@ as nat, 4),
    {
        be_u32_bytes(self.id)
    }
}

/// Calls `fastrand::u32(1..)`. Claims only that the number is at least 1.
#[verifier::external_body]
fn random_non_zero_u32() -> (r: u32)
    ensures
        r >= 1,
{
    fastrand::u32(1..)
}

} // verus!
