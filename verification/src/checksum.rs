//! The content checksum: an MD5 digest, carried as the 128-bit little-endian
//! integer its 16 digest bytes spell.

use vstd::prelude::*;

verus! {

/// The MD5 digest of a byte sequence, read as a little-endian 128-bit
/// integer. The digest is a fixed function of the bytes alone; what it is
/// on given bytes is not stated here.
pub uninterp spec fn md5_of(bytes: Seq<u8>) -> u128;

/// Relies on `md5::compute`: the 16-byte digest depends on the input bytes
/// alone.
#[verifier::external_body]
pub(crate) fn md5_digest(content: &[u8]) -> (r: u128)
    ensures
        r == md5_of(content@),
{
    u128::from_le_bytes(md5::compute(content).0)
}

} // verus!
