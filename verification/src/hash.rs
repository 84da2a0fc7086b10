//! The cryptographic mixing function behind identities and genetic material.

use vstd::prelude::*;

verus! {

/// The 128-bit Blake2b digest of a byte sequence, read as a little-endian
/// integer. The digest itself is far too long to state here; contracts use
/// this name for it.
pub uninterp spec fn blake2_128_of(data: Seq<u8>) -> u128;

/// Relies on sp_io::hashing::blake2_128: the 128-bit Blake2b digest of the
/// input bytes, a pure function of those bytes alone.
#[verifier::external_body]
pub(crate) fn blake2_128(data: &Vec<u8>) -> (r: u128)
    ensures
        r == blake2_128_of(data@),
{
    u128::from_le_bytes(sp_io::hashing::blake2_128(data.as_slice()))
}

} // verus!
