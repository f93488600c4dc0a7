//! Reading an archive's header and entry table into an index, and
//! relocating one entry's content: the new bytes are appended at the end of
//! the archive and only that entry's offset, size and checksum are
//! rewritten, in place, inside the table.

use vstd::prelude::*;
use vstd::bytes::{spec_u128_to_le_bytes, spec_u32_to_le_bytes, spec_u64_to_le_bytes};
use crate::checksum::{md5_digest, md5_of};
use crate::error::PckError;
use crate::format::{
    enc_entry, entry_at, entry_parseable, entry_size, header_error, index_map, magic_ok,
    read_u128_at, read_u32_at, read_u64_at, reserved_zero, spec_relocated, spec_scan, u32_at,
    EntryModel, ENTRY_FIXED_SIZE, HEADER_SIZE,
};
use crate::index::Index;
use crate::text::{path_of, string_from_utf8, trim_nul_bytes};

verus! {

/// The fixed archive header: the format version (always 1 once parsed), the
/// three producer-version words carried but not interpreted, and the number
/// of entries in the table.
#[derive(Clone, Copy, Debug, PartialEq, Eq, Structural)]
pub struct Header {
    pub version: u32,
    pub godot_version_major: u32,
    pub godot_version_minor: u32,
    pub godot_version_patch: u32,
    pub file_count: u32,
}

/// The header the archive's first bytes spell.
pub open spec fn spec_header(b: Seq<u8>) -> Header {
    Header {
        version: u32_at(b, 4),
        godot_version_major: u32_at(b, 8),
        godot_version_minor: u32_at(b, 12),
        godot_version_patch: u32_at(b, 16),
        file_count: u32_at(b, 84),
    }
}

/// What indexing an archive yields: its header and the mapping from decoded
/// logical path to that entry's table offset, or the first structural fault
/// met.
pub open spec fn spec_index_of(b: Seq<u8>) -> Result<(Header, Map<Seq<char>, u64>), PckError> {
    match header_error(b) {
        Some(e) => Err(e),
        None => match spec_scan(b, HEADER_SIZE as int, u32_at(b, 84) as nat) {
            Ok(ps) => Ok((spec_header(b), index_map(b, ps))),
            Err(e) => Err(e),
        },
    }
}

/// One entry record as stored in the table: a length-prefixed, NUL-padded
/// path, the content's byte offset in the archive, its size, and its MD5
/// checksum carried as a little-endian 128-bit integer.
#[derive(Clone, Debug)]
pub struct RawFileEntry {
    pub path_len: u32,
    pub path_bytes: Vec<u8>,
    pub offset: u64,
    pub size: u64,
    pub md5: u128,
}

impl View for RawFileEntry {
    type V = EntryModel;

    open spec fn view(&self) -> EntryModel {
        EntryModel {
            path_bytes: self.path_bytes@,
            offset: self.offset,
            size: self.size,
            md5: self.md5,
        }
    }
}

impl RawFileEntry {
    /// The length prefix agrees with the stored path bytes.
    pub open spec fn wf(self) -> bool {
        self.path_len as int == self.path_bytes@.len()
    }

    /// The entry's logical path: the path bytes without their trailing NUL
    /// padding, decoded as UTF-8; `InvalidPath` if they are not valid text.
    pub fn path(&self) -> (r: Result<String, PckError>)
        ensures
            match path_of(self@.path_bytes) {
                Some(s) => r is Ok && r->Ok_0@ == s,
                None => r == Err::<String, PckError>(PckError::InvalidPath),
            },
    {
        let mut bytes = vstd::slice::slice_to_vec(self.path_bytes.as_slice());
        trim_nul_bytes(&mut bytes);
        match string_from_utf8(bytes) {
            Some(s) => Ok(s),
            None => Err(PckError::InvalidPath),
        }
    }
}

/// Reads the entry record starting at table offset `pos`, returning it with
/// the offset just past it; `UnexpectedEof` if no complete record fits.
pub fn read_entry_at(b: &Vec<u8>, pos: usize) -> (r: Result<(RawFileEntry, usize), PckError>)
    ensures
        entry_parseable(b@, pos as int) ==> {
            &&& r is Ok
            &&& r->Ok_0.0.wf()
            &&& r->Ok_0.0@ == entry_at(b@, pos as int)
            &&& r->Ok_0.1 == pos + entry_size(b@, pos as int)
        },
        !entry_parseable(b@, pos as int) ==> r == Err::<(RawFileEntry, usize), PckError>(
            PckError::UnexpectedEof,
        ),
{
    if b.len() < 4 || pos > b.len() - 4 {
        return Err(PckError::UnexpectedEof);
    }
    let path_len = read_u32_at(b, pos);
    let l = path_len as usize;
    let rest = b.len() - (pos + 4);
    if l > rest || rest - l < 32 {
        return Err(PckError::UnexpectedEof);
    }
    let path_bytes = vstd::slice::slice_to_vec(
        vstd::slice::slice_subrange(b.as_slice(), pos + 4, pos + 4 + l),
    );
    let offset = read_u64_at(b, pos + 4 + l);
    let size = read_u64_at(b, pos + 12 + l);
    let md5 = read_u128_at(b, pos + 20 + l);
    Ok((RawFileEntry { path_len, path_bytes, offset, size, md5 }, pos + ENTRY_FIXED_SIZE + l))
}

/// Overwrites the entry record at table offset `pos` with the encoding of
/// `entry`, leaving every byte outside that record untouched.
#[verifier::loop_isolation(false)]
fn write_entry_at(b: &mut Vec<u8>, pos: usize, entry: &RawFileEntry)
    requires
        entry.wf(),
        pos + ENTRY_FIXED_SIZE + entry.path_len <= old(b).len(),
    ensures
        final(b)@ == old(b)@.take(pos as int) + enc_entry(entry@) + old(b)@.skip(
            pos as int + ENTRY_FIXED_SIZE + entry.path_len as int,
        ),
        final(b).len() == old(b).len(),
{
    proof {
        vstd::bytes::lemma_auto_spec_u32_to_from_le_bytes();
    }
    let mut enc: Vec<u8> = vstd::bytes::u32_to_le_bytes(entry.path_len);
    let mut i: usize = 0;
    while i < entry.path_bytes.len()
        invariant
            i <= entry.path_bytes.len(),
            enc@ == spec_u32_to_le_bytes(entry.path_len) + entry.path_bytes@.take(i as int),
        decreases entry.path_bytes.len() - i,
    {
        enc.push(entry.path_bytes[i]);
        i += 1;
    }
    assert(entry.path_bytes@.take(entry.path_bytes@.len() as int) =~= entry.path_bytes@);
    let mut field = vstd::bytes::u64_to_le_bytes(entry.offset);
    enc.append(&mut field);
    let mut field2 = vstd::bytes::u64_to_le_bytes(entry.size);
    enc.append(&mut field2);
    let mut field3 = vstd::bytes::u128_to_le_bytes(entry.md5);
    enc.append(&mut field3);
    assert(enc@ =~= enc_entry(entry@));
    let n = enc.len();
    let mut k: usize = 0;
    while k < n
        invariant
            k <= n,
            b@.len() == old(b)@.len(),
            b@ =~= old(b)@.take(pos as int) + enc@.take(k as int) + old(b)@.skip(
                pos as int + k as int,
            ),
        decreases n - k,
    {
        let ghost prev = b@;
        b[pos + k] = enc[k];
        proof {
            assert(b@ =~= old(b)@.take(pos as int) + enc@.take(k as int + 1) + old(b)@.skip(
                pos as int + k as int + 1,
            ));
        }
        k += 1;
    }
    assert(enc@.take(n as int) =~= enc@);
}

/// Reads the header and walks the whole entry table once, recording each
/// entry's table offset under its decoded path; a later entry with the same
/// path wins. Fails, returning no partial index, on a structurally invalid
/// header, a truncated table, or a path that is not valid text.
#[verifier::loop_isolation(false)]
pub fn read_header_and_index(pck_data: &Vec<u8>) -> (r: Result<(Header, Index), PckError>)
    ensures
        match r {
            Ok(hi) => spec_index_of(pck_data@) is Ok && hi.0 == spec_index_of(pck_data@)->Ok_0.0
                && hi.1@ == spec_index_of(pck_data@)->Ok_0.1,
            Err(e) => spec_index_of(pck_data@) == Err::<(Header, Map<Seq<char>, u64>), PckError>(
                e,
            ),
        },
{
    let b = pck_data;
    if b.len() < HEADER_SIZE {
        return Err(PckError::UnexpectedEof);
    }
    if !(b[0] == 0x47 && b[1] == 0x44 && b[2] == 0x50 && b[3] == 0x43) {
        return Err(PckError::BadMagic);
    }
    let version = read_u32_at(b, 4);
    if version != 1 {
        return Err(PckError::UnsupportedVersion);
    }
    let mut i: usize = 20;
    while i < 84
        invariant
            20 <= i <= 84,
            forall|j: int| 20 <= j < i ==> b@[j] == 0u8,
        decreases 84 - i,
    {
        if b[i] != 0 {
            return Err(PckError::NonZeroReserved);
        }
        i += 1;
    }
    let file_count = read_u32_at(b, 84);
    if file_count == 0 {
        return Err(PckError::ZeroFileCount);
    }
    assert(header_error(b@) is None);

    let mut index = Index::new();
    let mut pos: usize = HEADER_SIZE;
    let ghost mut ps: Seq<int> = Seq::empty();
    let mut k: u32 = 0;
    while k < file_count
        invariant
            k <= file_count,
            ps.len() == k as int,
            index@ == index_map(b@, ps),
            match spec_scan(b@, pos as int, (file_count - k) as nat) {
                Ok(rest) => spec_scan(b@, HEADER_SIZE as int, file_count as nat) == Ok::<
                    Seq<int>,
                    PckError,
                >(ps + rest),
                Err(e) => spec_scan(b@, HEADER_SIZE as int, file_count as nat) == Err::<
                    Seq<int>,
                    PckError,
                >(e),
            },
        decreases file_count - k,
    {
        let entry_offset = pos;
        let (entry, next) = match read_entry_at(b, pos) {
            Ok(p) => p,
            Err(e) => {
                return Err(e);
            },
        };
        let path = match entry.path() {
            Ok(p) => p,
            Err(e) => {
                return Err(e);
            },
        };
        index.insert(path, entry_offset as u64);
        proof {
            let m = (file_count - k) as nat;
            let rest2 = spec_scan(b@, pos as int + entry_size(b@, pos as int), (m - 1) as nat);
            if rest2 is Ok {
                let rest = spec_scan(b@, pos as int, m)->Ok_0;
                assert(ps + rest =~= ps.push(pos as int) + rest2->Ok_0);
            }
            assert(ps.push(pos as int).drop_last() =~= ps);
            ps = ps.push(pos as int);
        }
        pos = next;
        k += 1;
    }
    proof {
        assert(ps + spec_scan(b@, pos as int, 0)->Ok_0 =~= ps);
    }
    let header = Header {
        version,
        godot_version_major: read_u32_at(b, 8),
        godot_version_minor: read_u32_at(b, 12),
        godot_version_patch: read_u32_at(b, 16),
        file_count,
    };
    Ok((header, index))
}

/// Relocates the entry for `res_path` to fresh content: appends `content`
/// at the current end of the archive, then rewrites only that entry's
/// offset, size and checksum in place, leaving the rest of the table, the
/// path bytes, and every other byte of the old archive untouched. Fails
/// with `NotFound`, changing nothing, when `res_path` is absent from the
/// index.
#[verifier::loop_isolation(false)]
pub fn replace_file_in_pck(
    pck_data: &mut Vec<u8>,
    entry_offsets: &Index,
    res_path: &str,
    content: &[u8],
) -> (r: Result<(), PckError>)
    requires
        entry_offsets@.contains_key(res_path@) ==> entry_parseable(
            old(pck_data)@,
            entry_offsets@[res_path@] as int,
        ),
        old(pck_data).len() + content@.len() <= usize::MAX,
    ensures
        entry_offsets@.contains_key(res_path@) ==> r is Ok && final(pck_data)@ == spec_relocated(
            old(pck_data)@,
            entry_offsets@[res_path@] as int,
            content@,
        ),
        !entry_offsets@.contains_key(res_path@) ==> r == Err::<(), PckError>(PckError::NotFound)
            && final(pck_data)@ == old(pck_data)@,
{
    let entry_offset: u64 = match entry_offsets.get(res_path) {
        Some(o) => o,
        None => {
            return Err(PckError::NotFound);
        },
    };
    let pos = entry_offset as usize;
    let new_offset: u64 = pck_data.len() as u64;
    let clen = content.len();
    let mut i: usize = 0;
    while i < clen
        invariant
            i <= clen,
            pck_data@ =~= old(pck_data)@ + content@.take(i as int),
        decreases clen - i,
    {
        pck_data.push(content[i]);
        i += 1;
    }
    assert(pck_data@ =~= old(pck_data)@ + content@);
    proof {
        lemma_entry_stable_under_append(old(pck_data)@, content@, pos as int);
    }
    let (mut entry, _next) = match read_entry_at(pck_data, pos) {
        Ok(p) => p,
        Err(e) => {
            return Err(e);
        },
    };
    entry.offset = new_offset;
    entry.size = clen as u64;
    entry.md5 = md5_digest(content);
    write_entry_at(pck_data, pos, &entry);
    proof {
        assert(pck_data@ =~= spec_relocated(old(pck_data)@, pos as int, content@));
    }
    Ok(())
}

/// Appending bytes to an archive does not disturb an entry record that lies
/// within the old bytes.
proof fn lemma_entry_stable_under_append(b: Seq<u8>, c: Seq<u8>, pos: int)
    requires
        entry_parseable(b, pos),
    ensures
        entry_parseable(b + c, pos),
        entry_size(b + c, pos) == entry_size(b, pos),
        entry_at(b + c, pos) == entry_at(b, pos),
{
    let a = b + c;
    assert(a.subrange(pos, pos + 4) =~= b.subrange(pos, pos + 4));
    let l = u32_at(b, pos) as int;
    assert(a.subrange(pos + 4, pos + 4 + l) =~= b.subrange(pos + 4, pos + 4 + l));
    assert(a.subrange(pos + 4 + l, pos + 12 + l) =~= b.subrange(pos + 4 + l, pos + 12 + l));
    assert(a.subrange(pos + 12 + l, pos + 20 + l) =~= b.subrange(pos + 12 + l, pos + 20 + l));
    assert(a.subrange(pos + 20 + l, pos + 36 + l) =~= b.subrange(pos + 20 + l, pos + 36 + l));
}

} // verus!
