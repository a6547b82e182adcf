//! Big-endian integers read and written through `zerocopy`'s byte-order types.
use crate::bytes::{be_seq, be_value};
use vstd::prelude::*;

verus! {

/// Calls `FromBytes::read_from_bytes` for `zerocopy::big_endian::U32`, then
/// `get`. Claims: a value comes back exactly when there are 4 bytes, and it is
/// the number the bytes stand for, most significant first.
#[verifier::external_body]
pub(crate) fn be_u32_read(bytes: &[u8]) -> (r: Option<u32>)
    ensures
        r is Some <==> bytes@.len() == 4,
        r matches Some(v) ==> v as nat == be_value(bytes@),
{
    match <zerocopy::byteorder::big_endian::U32 as zerocopy::FromBytes>::read_from_bytes(bytes) {
        Ok(v) => Some(v.get()),
        Err(_) => None,
    }
}

/// Calls `FromBytes::read_from_bytes` for `zerocopy::big_endian::U64`, then
/// `get`. Claims: a value comes back exactly when there are 8 bytes, and it is
/// the number the bytes stand for, most significant first.
#[verifier::external_body]
pub(crate) fn be_u64_read(bytes: &[u8]) -> (r: Option<u64>)
    ensures
        r is Some <==> bytes@.len() == 8,
        r matches Some(v) ==> v as nat == be_value(bytes@),
{
    match <zerocopy::byteorder::big_endian::U64 as zerocopy::FromBytes>::read_from_bytes(bytes) {
        Ok(v) => Some(v.get()),
        Err(_) => None,
    }
}

/// Calls `zerocopy::big_endian::U32::new` and `to_bytes`. Claims: the 4 bytes
/// of `v`, most significant first.
#[verifier::external_body]
pub(crate) fn be_u32_bytes(v: u32) -> (r: Vec<u8>)
    ensures
        r@ == be_seq(v as nat, 4),
{
    zerocopy::byteorder::big_endian::U32::new(v).to_bytes().to_vec()
}

/// Calls `zerocopy::big_endian::U64::new` and `to_bytes`. Claims: the 8 bytes
/// of `v`, most significant first.
#[verifier::external_body]
pub(crate) fn be_u64_bytes(v: u64) -> (r: Vec<u8>)
    ensures
        r@ == be_seq(v as nat, 8),
{
    zerocopy::byteorder::big_endian::U64::new(v).to_bytes().to_vec()
}

} // verus!
