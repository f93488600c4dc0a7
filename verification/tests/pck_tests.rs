//! End-to-end tests of indexing and relocation on in-memory archives.

use pck_patch::error::PckError;
use pck_patch::pck::{read_entry_at, read_header_and_index, replace_file_in_pck};

/// Appends one entry record: length-prefixed path bytes, content offset,
/// content size, and a 16-byte checksum.
fn push_entry(archive: &mut Vec<u8>, path_bytes: &[u8], offset: u64, size: u64, md5: [u8; 16]) {
    archive.extend_from_slice(&(path_bytes.len() as u32).to_le_bytes());
    archive.extend_from_slice(path_bytes);
    archive.extend_from_slice(&offset.to_le_bytes());
    archive.extend_from_slice(&size.to_le_bytes());
    archive.extend_from_slice(&md5);
}

/// A header with the given version, reserved words and entry count.
fn make_header(magic: &[u8; 4], version: u32, reserved: [u32; 16], file_count: u32) -> Vec<u8> {
    let mut v = Vec::new();
    v.extend_from_slice(magic);
    v.extend_from_slice(&version.to_le_bytes());
    v.extend_from_slice(&3u32.to_le_bytes());
    v.extend_from_slice(&5u32.to_le_bytes());
    v.extend_from_slice(&2u32.to_le_bytes());
    for w in reserved {
        v.extend_from_slice(&w.to_le_bytes());
    }
    v.extend_from_slice(&file_count.to_le_bytes());
    v
}

/// A well-formed archive with entries `res://a.txt` -> "hello" and
/// `res://b.txt` -> "world", contents stored right after the table.
/// Table offsets: entry a at 88, entry b at 135; contents at 182 and 187.
fn sample_archive() -> Vec<u8> {
    let mut v = make_header(b"GDPC", 1, [0; 16], 2);
    push_entry(&mut v, b"res://a.txt", 182, 5, md5::compute(b"hello").0);
    push_entry(&mut v, b"res://b.txt", 187, 5, md5::compute(b"world").0);
    v.extend_from_slice(b"hello");
    v.extend_from_slice(b"world");
    v
}

#[test]
fn index_well_formed_archive() {
    let v = sample_archive();
    let (header, index) = read_header_and_index(&v).unwrap();
    assert_eq!(header.version, 1);
    assert_eq!(header.godot_version_major, 3);
    assert_eq!(header.godot_version_minor, 5);
    assert_eq!(header.godot_version_patch, 2);
    assert_eq!(header.file_count, 2);
    assert_eq!(index.get("res://a.txt"), Some(88));
    assert_eq!(index.get("res://b.txt"), Some(135));
    assert_eq!(index.get("res://missing.txt"), None);
}

#[test]
fn reindexing_unmutated_archive_is_stable() {
    let v = sample_archive();
    let (_, index1) = read_header_and_index(&v).unwrap();
    let (_, index2) = read_header_and_index(&v).unwrap();
    assert_eq!(index1.get("res://a.txt"), index2.get("res://a.txt"));
    assert_eq!(index1.get("res://b.txt"), index2.get("res://b.txt"));
}

#[test]
fn wrong_magic_fails() {
    let mut v = sample_archive();
    v[0] = b'X';
    assert_eq!(read_header_and_index(&v).unwrap_err(), PckError::BadMagic);
}

#[test]
fn unsupported_version_fails() {
    let mut v = make_header(b"GDPC", 2, [0; 16], 1);
    push_entry(&mut v, b"res://a.txt", 0, 0, [0; 16]);
    assert_eq!(
        read_header_and_index(&v).unwrap_err(),
        PckError::UnsupportedVersion
    );
}

#[test]
fn nonzero_reserved_word_fails() {
    let mut reserved = [0u32; 16];
    reserved[7] = 1;
    let mut v = make_header(b"GDPC", 1, reserved, 1);
    push_entry(&mut v, b"res://a.txt", 0, 0, [0; 16]);
    assert_eq!(
        read_header_and_index(&v).unwrap_err(),
        PckError::NonZeroReserved
    );
}

#[test]
fn zero_entry_count_fails() {
    let v = make_header(b"GDPC", 1, [0; 16], 0);
    assert_eq!(
        read_header_and_index(&v).unwrap_err(),
        PckError::ZeroFileCount
    );
}

#[test]
fn truncated_header_fails() {
    let v = vec![b'G', b'D', b'P', b'C', 1, 0];
    assert_eq!(
        read_header_and_index(&v).unwrap_err(),
        PckError::UnexpectedEof
    );
}

#[test]
fn truncated_table_fails() {
    let mut v = sample_archive();
    v.truncate(120);
    assert_eq!(
        read_header_and_index(&v).unwrap_err(),
        PckError::UnexpectedEof
    );
}

#[test]
fn invalid_path_text_fails() {
    let mut v = make_header(b"GDPC", 1, [0; 16], 1);
    push_entry(&mut v, &[0xff, 0xfe, 0xfd], 0, 0, [0; 16]);
    assert_eq!(read_header_and_index(&v).unwrap_err(), PckError::InvalidPath);
}

#[test]
fn nul_padded_path_is_trimmed() {
    let mut v = make_header(b"GDPC", 1, [0; 16], 1);
    push_entry(&mut v, b"res://a.txt\0\0\0\0\0", 0, 0, [0; 16]);
    let (_, index) = read_header_and_index(&v).unwrap();
    assert_eq!(index.get("res://a.txt"), Some(88));
    assert_eq!(index.get("res://a.txt\0\0\0\0\0"), None);
    let (entry, _) = read_entry_at(&v, 88).unwrap();
    assert_eq!(entry.path().unwrap(), "res://a.txt");
}

#[test]
fn duplicate_path_last_entry_wins() {
    let mut v = make_header(b"GDPC", 1, [0; 16], 2);
    push_entry(&mut v, b"res://a.txt", 0, 0, [0; 16]);
    push_entry(&mut v, b"res://a.txt", 0, 0, [0; 16]);
    let (_, index) = read_header_and_index(&v).unwrap();
    assert_eq!(index.get("res://a.txt"), Some(135));
}

#[test]
fn relocate_round_trip() {
    let mut v = sample_archive();
    let old_len = v.len() as u64;
    let (_, index) = read_header_and_index(&v).unwrap();
    let content = b"fresh bytes";
    replace_file_in_pck(&mut v, &index, "res://a.txt", content).unwrap();

    let (header2, index2) = read_header_and_index(&v).unwrap();
    assert_eq!(header2.file_count, 2);
    assert_eq!(index2.get("res://a.txt"), Some(88));
    let (entry, _) = read_entry_at(&v, 88).unwrap();
    assert_eq!(entry.offset, old_len);
    assert_eq!(entry.size, content.len() as u64);
    assert_eq!(entry.md5, u128::from_le_bytes(md5::compute(content).0));
    let region = &v[entry.offset as usize..(entry.offset + entry.size) as usize];
    assert_eq!(region, content);
}

#[test]
fn relocate_leaves_other_entry_untouched() {
    let mut v = sample_archive();
    let before = v.clone();
    let (_, index) = read_header_and_index(&v).unwrap();
    replace_file_in_pck(&mut v, &index, "res://a.txt", b"HI").unwrap();

    // Entry b's record spans bytes 135..182 and its content bytes 187..192.
    assert_eq!(&v[135..182], &before[135..182]);
    assert_eq!(&v[187..192], &before[187..192]);
    let (_, index2) = read_header_and_index(&v).unwrap();
    assert_eq!(index2.get("res://b.txt"), Some(135));
    let (entry_b, _) = read_entry_at(&v, 135).unwrap();
    assert_eq!(entry_b.offset, 187);
    assert_eq!(entry_b.size, 5);
    assert_eq!(&v[187..192], b"world");
}

#[test]
fn relocate_twice_points_at_second_content() {
    let mut v = sample_archive();
    let len0 = v.len() as u64;
    let (_, index) = read_header_and_index(&v).unwrap();
    replace_file_in_pck(&mut v, &index, "res://a.txt", b"first").unwrap();
    let len1 = v.len() as u64;
    replace_file_in_pck(&mut v, &index, "res://a.txt", b"second!").unwrap();

    let (entry, _) = read_entry_at(&v, 88).unwrap();
    assert_eq!(entry.offset, len1);
    assert_eq!(entry.size, 7);
    assert_eq!(entry.md5, u128::from_le_bytes(md5::compute(b"second!").0));
    assert_eq!(&v[len1 as usize..], b"second!");
    // The first content is still physically present, just unreferenced.
    assert_eq!(&v[len0 as usize..len1 as usize], b"first");
    let (entry_b, _) = read_entry_at(&v, 135).unwrap();
    assert_eq!(entry_b.offset, 187);
}

#[test]
fn relocate_missing_path_changes_nothing() {
    let mut v = sample_archive();
    let before = v.clone();
    let (_, index) = read_header_and_index(&v).unwrap();
    let r = replace_file_in_pck(&mut v, &index, "res://missing.txt", b"data");
    assert_eq!(r.unwrap_err(), PckError::NotFound);
    assert_eq!(v, before);
}

#[test]
fn two_entry_example() {
    // An archive with entries for `res://a.txt` ("hello") and `res://b.txt`
    // ("world"); relocating `res://a.txt` to "HI" grows the archive by 2,
    // repoints the entry at the old end with size 2 and the digest of "HI",
    // and leaves `res://b.txt` and its content bytes as they were.
    let mut v = sample_archive();
    let old_len = v.len();
    let (header, index) = read_header_and_index(&v).unwrap();
    assert_eq!(header.file_count, 2);
    replace_file_in_pck(&mut v, &index, "res://a.txt", b"HI").unwrap();

    assert_eq!(v.len(), old_len + 2);
    let (entry_a, _) = read_entry_at(&v, 88).unwrap();
    assert_eq!(entry_a.size, 2);
    assert_eq!(entry_a.offset, old_len as u64);
    assert_eq!(entry_a.md5, u128::from_le_bytes(md5::compute(b"HI").0));
    let (entry_b, _) = read_entry_at(&v, 135).unwrap();
    assert_eq!(entry_b.offset, 187);
    assert_eq!(entry_b.size, 5);
    assert_eq!(entry_b.md5, u128::from_le_bytes(md5::compute(b"world").0));
    assert_eq!(&v[187..192], b"world");
}

#[test]
fn relocate_to_empty_content() {
    let mut v = sample_archive();
    let old_len = v.len() as u64;
    let (_, index) = read_header_and_index(&v).unwrap();
    replace_file_in_pck(&mut v, &index, "res://a.txt", b"").unwrap();
    assert_eq!(v.len() as u64, old_len);
    let (entry, _) = read_entry_at(&v, 88).unwrap();
    assert_eq!(entry.offset, old_len);
    assert_eq!(entry.size, 0);
    assert_eq!(entry.md5, u128::from_le_bytes(md5::compute(b"").0));
}

#[test]
fn stored_checksum_is_the_md5_digest() {
    // The well-known digest of "hello": 5d41402abc4b2a76b9719d911017c592.
    let expected: [u8; 16] = [
        0x5d, 0x41, 0x40, 0x2a, 0xbc, 0x4b, 0x2a, 0x76, 0xb9, 0x71, 0x9d, 0x91, 0x10, 0x17,
        0xc5, 0x92,
    ];
    let mut v = sample_archive();
    let (_, index) = read_header_and_index(&v).unwrap();
    replace_file_in_pck(&mut v, &index, "res://b.txt", b"hello").unwrap();
    let (entry_b, _) = read_entry_at(&v, 135).unwrap();
    assert_eq!(entry_b.md5, u128::from_le_bytes(expected));
}
