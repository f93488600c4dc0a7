//! The errors the engine can report: structural faults found while indexing,
//! and a missing path reported by relocation.

use vstd::prelude::*;

verus! {

/// Everything that can go wrong while indexing an archive or relocating an
/// entry's content.
///
/// The first six variants are structural faults detected during indexing;
/// `NotFound` is reported by relocation when the requested logical path is
/// absent from the index.
#[derive(Clone, Copy, Debug, PartialEq, Eq, Structural)]
pub enum PckError {
    /// The archive ended before a complete header or entry could be read.
    UnexpectedEof,
    /// The archive does not start with the `GDPC` magic tag.
    BadMagic,
    /// The format version field is not 1.
    UnsupportedVersion,
    /// A reserved word in the header is not zero.
    NonZeroReserved,
    /// The header declares zero entries.
    ZeroFileCount,
    /// An entry's path bytes are not valid UTF-8.
    InvalidPath,
    /// The requested logical path is not present in the index.
    NotFound,
}

} // verus!
