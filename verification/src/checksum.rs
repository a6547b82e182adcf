//! CRC32 checksums through `crc32fast`.
use vstd::prelude::*;

verus! {

/// The CRC32 (IEEE) state after feeding `data` to a checksum started from
/// state `initial`; a function of its arguments alone.
pub uninterp spec fn crc32_of(initial: u32, data: Seq<u8>) -> u32;

/// Calls `crc32fast::Hasher::new_with_initial(initial)`, then `update(data)`
/// and `finalize()`. Claims: the result is `crc32_of(initial, data)`, that is,
/// it depends on `initial` and the bytes of `data` only.
#[verifier::external_body]
pub(crate) fn crc32_continue(initial: u32, data: &[u8]) -> (r: u32)
    ensures
        r == crc32_of(initial, data@),
{
    let mut h = crc32fast::Hasher::new_with_initial(initial);
    h.update(data);
    h.finalize()
}

} // verus!
