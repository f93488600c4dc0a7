//! Decoding an entry's path bytes into a logical path: trailing NUL padding
//! is stripped, and the remaining bytes must be valid UTF-8.

use vstd::prelude::*;
use vstd::utf8::{decode_utf8, valid_utf8};

verus! {

/// `bytes` with its trailing NUL padding removed.
pub open spec fn trim_nuls(bytes: Seq<u8>) -> Seq<u8>
    decreases bytes.len(),
{
    if bytes.len() > 0 && bytes.last() == 0u8 {
        trim_nuls(bytes.drop_last())
    } else {
        bytes
    }
}

/// The logical path stored in raw path bytes: the bytes without their
/// trailing NUL padding, decoded as UTF-8; `None` if they are not valid
/// UTF-8.
pub open spec fn path_of(bytes: Seq<u8>) -> Option<Seq<char>> {
    let t = trim_nuls(bytes);
    if valid_utf8(t) {
        Some(decode_utf8(t))
    } else {
        None
    }
}

/// Relies on `String::from_utf8`: it succeeds exactly on valid UTF-8 input,
/// and on success the string holds exactly that byte sequence decoded.
#[verifier::external_body]
pub(crate) fn string_from_utf8(bytes: Vec<u8>) -> (r: Option<String>)
    ensures
        r is Some <==> valid_utf8(bytes@),
        r is Some ==> r->Some_0@ == decode_utf8(bytes@),
{
    String::from_utf8(bytes).ok()
}

/// Removes trailing NUL bytes in place.
pub fn trim_nul_bytes(bytes: &mut Vec<u8>)
    ensures
        final(bytes)@ == trim_nuls(old(bytes)@),
{
    while bytes.len() > 0 && bytes[bytes.len() - 1] == 0
        invariant
            trim_nuls(bytes@) == trim_nuls(old(bytes)@),
        decreases bytes@.len(),
    {
        bytes.pop();
    }
}

} // verus!
