//! The byte-level model of the archive container: little-endian field
//! readers, the header checks, the shape of one entry record, the walk over
//! the entry table, and the byte transformation a relocation performs.

use vstd::prelude::*;
use vstd::bytes::{
    spec_u128_from_le_bytes, spec_u128_to_le_bytes, spec_u32_from_le_bytes, spec_u32_to_le_bytes,
    spec_u64_from_le_bytes, spec_u64_to_le_bytes,
};
use crate::checksum::md5_of;
use crate::error::PckError;
use crate::text::path_of;

verus! {

/// Number of bytes in the fixed archive header: 4 magic bytes, a version
/// word, three producer-version words, 16 reserved words, and the entry
/// count.
pub const HEADER_SIZE: usize = 88;

/// Fixed byte count of an entry record beyond its path bytes: the 4-byte
/// path length, the 8-byte content offset, the 8-byte content size and the
/// 16-byte checksum.
pub const ENTRY_FIXED_SIZE: usize = 36;

/// The little-endian 32-bit word stored at `pos`.
pub open spec fn u32_at(b: Seq<u8>, pos: int) -> u32 {
    spec_u32_from_le_bytes(b.subrange(pos, pos + 4))
}

/// The little-endian 64-bit word stored at `pos`.
pub open spec fn u64_at(b: Seq<u8>, pos: int) -> u64 {
    spec_u64_from_le_bytes(b.subrange(pos, pos + 8))
}

/// The little-endian 128-bit word stored at `pos`.
pub open spec fn u128_at(b: Seq<u8>, pos: int) -> u128 {
    spec_u128_from_le_bytes(b.subrange(pos, pos + 16))
}

/// The archive starts with the magic tag `GDPC`.
pub open spec fn magic_ok(b: Seq<u8>) -> bool {
    &&& b.len() >= 4
    &&& b[0] == 0x47u8
    &&& b[1] == 0x44u8
    &&& b[2] == 0x50u8
    &&& b[3] == 0x43u8
}

/// All 64 reserved bytes (16 words) of the header are zero.
pub open spec fn reserved_zero(b: Seq<u8>) -> bool {
    forall|i: int| 20 <= i < 84 ==> b[i] == 0u8
}

/// The structural fault of the header, if any, in the order the header is
/// read: truncation, then magic, version, reserved block, entry count.
pub open spec fn header_error(b: Seq<u8>) -> Option<PckError> {
    if b.len() < HEADER_SIZE {
        Some(PckError::UnexpectedEof)
    } else if !magic_ok(b) {
        Some(PckError::BadMagic)
    } else if u32_at(b, 4) != 1 {
        Some(PckError::UnsupportedVersion)
    } else if !reserved_zero(b) {
        Some(PckError::NonZeroReserved)
    } else if u32_at(b, 84) == 0 {
        Some(PckError::ZeroFileCount)
    } else {
        None
    }
}

/// The mathematical content of one entry record: the raw (still padded) path
/// bytes, where the entry's content starts, how long it is, and its 128-bit
/// checksum read as a little-endian integer.
pub ghost struct EntryModel {
    pub path_bytes: Seq<u8>,
    pub offset: u64,
    pub size: u64,
    pub md5: u128,
}

/// A complete entry record fits at `pos`: its length prefix is in bounds and
/// so are the path bytes and fixed fields the prefix implies.
pub open spec fn entry_parseable(b: Seq<u8>, pos: int) -> bool {
    &&& 0 <= pos
    &&& pos + 4 <= b.len()
    &&& pos + ENTRY_FIXED_SIZE + u32_at(b, pos) <= b.len()
}

/// Total byte size of the entry record at `pos`.
pub open spec fn entry_size(b: Seq<u8>, pos: int) -> int {
    ENTRY_FIXED_SIZE + u32_at(b, pos)
}

/// The entry record stored at `pos`.
pub open spec fn entry_at(b: Seq<u8>, pos: int) -> EntryModel {
    let l = u32_at(b, pos) as int;
    EntryModel {
        path_bytes: b.subrange(pos + 4, pos + 4 + l),
        offset: u64_at(b, pos + 4 + l),
        size: u64_at(b, pos + 12 + l),
        md5: u128_at(b, pos + 20 + l),
    }
}

/// The byte encoding of an entry record: length prefix, path bytes, content
/// offset, content size, checksum.
pub open spec fn enc_entry(e: EntryModel) -> Seq<u8> {
    spec_u32_to_le_bytes(e.path_bytes.len() as u32) + e.path_bytes
        + spec_u64_to_le_bytes(e.offset) + spec_u64_to_le_bytes(e.size)
        + spec_u128_to_le_bytes(e.md5)
}

/// Walking `n` entry records from `pos`: the table offset of each record in
/// order, or the first fault met (truncation, or a path that is not text).
pub open spec fn spec_scan(b: Seq<u8>, pos: int, n: nat) -> Result<Seq<int>, PckError>
    decreases n,
{
    if n == 0 {
        Ok(Seq::empty())
    } else if !entry_parseable(b, pos) {
        Err(PckError::UnexpectedEof)
    } else if path_of(entry_at(b, pos).path_bytes) is None {
        Err(PckError::InvalidPath)
    } else {
        match spec_scan(b, pos + entry_size(b, pos), (n - 1) as nat) {
            Ok(rest) => Ok(seq![pos] + rest),
            Err(e) => Err(e),
        }
    }
}

/// The index the table offsets yield: each entry's decoded path mapped to
/// its table offset, a later entry overwriting an earlier one with the same
/// path.
pub open spec fn index_map(b: Seq<u8>, ps: Seq<int>) -> Map<Seq<char>, u64>
    decreases ps.len(),
{
    if ps.len() == 0 {
        Map::empty()
    } else {
        index_map(b, ps.drop_last()).insert(
            path_of(entry_at(b, ps.last()).path_bytes)->Some_0,
            ps.last() as u64,
        )
    }
}

/// The archive after relocating the entry at table offset `pos` to fresh
/// content `c`: `c` is appended at the old end of the archive, and the
/// entry record is rewritten in place with the same path, the old end as
/// its offset, `c`'s length as its size, and `c`'s digest as its checksum.
pub open spec fn spec_relocated(b: Seq<u8>, pos: int, c: Seq<u8>) -> Seq<u8>
    recommends
        entry_parseable(b, pos),
        b.len() + c.len() <= u64::MAX,
{
    let appended = b + c;
    let e = EntryModel {
        path_bytes: entry_at(b, pos).path_bytes,
        offset: b.len() as u64,
        size: c.len() as u64,
        md5: md5_of(c),
    };
    appended.take(pos) + enc_entry(e) + appended.skip(pos + entry_size(b, pos))
}

/// Reads the little-endian 32-bit word at `pos`.
pub fn read_u32_at(b: &Vec<u8>, pos: usize) -> (r: u32)
    requires
        pos + 4 <= b.len(),
    ensures
        r == u32_at(b@, pos as int),
{
    let s = vstd::slice::slice_subrange(b.as_slice(), pos, pos + 4);
    vstd::bytes::u32_from_le_bytes(s)
}

/// Reads the little-endian 64-bit word at `pos`.
pub fn read_u64_at(b: &Vec<u8>, pos: usize) -> (r: u64)
    requires
        pos + 8 <= b.len(),
    ensures
        r == u64_at(b@, pos as int),
{
    let s = vstd::slice::slice_subrange(b.as_slice(), pos, pos + 8);
    vstd::bytes::u64_from_le_bytes(s)
}

/// Reads the little-endian 128-bit word at `pos`.
pub fn read_u128_at(b: &Vec<u8>, pos: usize) -> (r: u128)
    requires
        pos + 16 <= b.len(),
    ensures
        r == u128_at(b@, pos as int),
{
    let s = vstd::slice::slice_subrange(b.as_slice(), pos, pos + 16);
    vstd::bytes::u128_from_le_bytes(s)
}

} // verus!
