//! Properties of indexing and relocation that hold for every archive:
//! relocation preserves the table layout and the index, the relocated
//! entry's metadata delimits exactly the appended bytes, no other entry is
//! disturbed, and repeated relocation leaves the last content in force.

use vstd::prelude::*;
use crate::checksum::md5_of;
use crate::error::PckError;
use crate::format::{
    enc_entry, entry_at, entry_parseable, entry_size, header_error, index_map, magic_ok,
    reserved_zero, spec_relocated, spec_scan, u32_at, EntryModel,
};
use crate::pck::{spec_header, spec_index_of};
use crate::text::path_of;

verus! {

/// A successful table walk visits `n` chained records: each is parseable,
/// each path decodes, each record starts where the previous one ended, and
/// distinct records occupy disjoint byte spans, all within the archive.
proof fn lemma_scan_props(b: Seq<u8>, pos: int, n: nat)
    requires
        spec_scan(b, pos, n) is Ok,
    ensures
        ({
            let ps = spec_scan(b, pos, n)->Ok_0;
            &&& ps.len() == n
            &&& (n > 0 ==> ps[0] == pos)
            &&& forall|k: int| 0 <= k < n ==> pos <= #[trigger] ps[k]
            &&& forall|k: int| 0 <= k < n ==> entry_parseable(b, #[trigger] ps[k])
            &&& forall|k: int|
                0 <= k < n ==> path_of(entry_at(b, #[trigger] ps[k]).path_bytes) is Some
            &&& forall|j: int, k: int|
                0 <= j < k < n ==> #[trigger] ps[j] + entry_size(b, ps[j]) <= #[trigger] ps[k]
        }),
    decreases n,
{
    if n > 0 {
        let size = entry_size(b, pos);
        lemma_scan_props(b, pos + size, (n - 1) as nat);
        let rest = spec_scan(b, pos + size, (n - 1) as nat)->Ok_0;
        let ps = spec_scan(b, pos, n)->Ok_0;
        assert(ps =~= seq![pos] + rest);
        assert(forall|k: int| 1 <= k < n ==> ps[k] == rest[k - 1]);
        assert forall|j: int, k: int| 0 <= j < k < n implies #[trigger] ps[j] + entry_size(
            b,
            ps[j],
        ) <= #[trigger] ps[k] by {
            if j == 0 {
                assert(pos + size <= rest[k - 1]);
            } else {
                assert(rest[j - 1] + entry_size(b, rest[j - 1]) <= rest[k - 1]);
            }
        }
    }
}

/// Every path the index maps is the decoded path of one of the scanned
/// records, and is mapped to that record's table offset.
proof fn lemma_index_map_value(b: Seq<u8>, ps: Seq<int>, key: Seq<char>)
    requires
        index_map(b, ps).contains_key(key),
        forall|k: int| 0 <= k < ps.len() ==> path_of(entry_at(b, #[trigger] ps[k]).path_bytes) is Some,
    ensures
        exists|j: int|
            0 <= j < ps.len() && index_map(b, ps)[key] == #[trigger] ps[j] as u64 && path_of(
                entry_at(b, ps[j]).path_bytes,
            ) == Some(key),
    decreases ps.len(),
{
    if ps.len() > 0 {
        if path_of(entry_at(b, ps.last()).path_bytes)->Some_0 == key {
            let j = ps.len() - 1;
            assert(index_map(b, ps)[key] == ps[j] as u64);
        } else {
            lemma_index_map_value(b, ps.drop_last(), key);
            let j = choose|j: int|
                0 <= j < ps.drop_last().len() && index_map(b, ps.drop_last())[key]
                    == #[trigger] ps.drop_last()[j] as u64 && path_of(
                    entry_at(b, ps.drop_last()[j]).path_bytes,
                ) == Some(key);
            assert(index_map(b, ps)[key] == ps[j] as u64);
        }
    }
}

/// Two archives whose scanned records decode to the same paths yield the
/// same index.
proof fn lemma_index_map_congruence(b: Seq<u8>, b2: Seq<u8>, ps: Seq<int>)
    requires
        forall|k: int|
            0 <= k < ps.len() ==> path_of(entry_at(b2, #[trigger] ps[k]).path_bytes) == path_of(
                entry_at(b, ps[k]).path_bytes,
            ),
    ensures
        index_map(b2, ps) == index_map(b, ps),
    decreases ps.len(),
{
    if ps.len() > 0 {
        lemma_index_map_congruence(b, b2, ps.drop_last());
        assert(index_map(b2, ps) =~= index_map(b, ps));
    }
}

/// What relocation does to the bytes: the archive grows by exactly the new
/// content, appended at the old end; within the old bytes only the 32
/// metadata bytes of the record at `pos` change; and the record at `pos`
/// now carries the old end as offset, the content length as size, and the
/// content's digest as checksum, under its untouched path.
proof fn lemma_relocated_bytes(b: Seq<u8>, pos: int, c: Seq<u8>)
    requires
        entry_parseable(b, pos),
    ensures
        ({
            let b2 = spec_relocated(b, pos, c);
            let l = u32_at(b, pos) as int;
            &&& b2.len() == b.len() + c.len()
            &&& forall|i: int|
                0 <= i < b.len() && !(pos + 4 + l <= i < pos + 36 + l) ==> b2[i] == b[i]
            &&& b2.subrange(b.len() as int, b.len() as int + c.len() as int) =~= c
            &&& entry_parseable(b2, pos)
            &&& entry_size(b2, pos) == entry_size(b, pos)
            &&& entry_at(b2, pos) == (EntryModel {
                path_bytes: entry_at(b, pos).path_bytes,
                offset: b.len() as u64,
                size: c.len() as u64,
                md5: md5_of(c),
            })
        }),
{
    vstd::bytes::lemma_auto_spec_u32_to_from_le_bytes();
    vstd::bytes::lemma_auto_spec_u64_to_from_le_bytes();
    vstd::bytes::lemma_auto_spec_u128_to_from_le_bytes();
    let l = u32_at(b, pos) as int;
    let e = EntryModel {
        path_bytes: entry_at(b, pos).path_bytes,
        offset: b.len() as u64,
        size: c.len() as u64,
        md5: md5_of(c),
    };
    let enc = enc_entry(e);
    let b2 = spec_relocated(b, pos, c);
    assert(e.path_bytes.len() == l);
    assert(enc.len() == 36 + l);
    assert(b2.len() == b.len() + c.len());
    // The length prefix and the path bytes written back are the bytes that
    // were already there.
    assert(vstd::bytes::spec_u32_to_le_bytes(u32_at(b, pos)) =~= b.subrange(pos, pos + 4));
    assert forall|i: int|
        0 <= i < b.len() && !(pos + 4 + l <= i < pos + 36 + l) implies b2[i] == b[i] by {
        if i < pos {
            assert(b2[i] == (b + c)[i]);
        } else if i < pos + 4 {
            assert(b2[i] == enc[i - pos]);
            assert(enc[i - pos] == b.subrange(pos, pos + 4)[i - pos]);
        } else if i < pos + 4 + l {
            assert(b2[i] == enc[i - pos]);
            assert(enc[i - pos] == e.path_bytes[i - pos - 4]);
        } else {
            assert(b2[i] == (b + c)[i]);
        }
    }
    assert(b2.subrange(b.len() as int, b.len() as int + c.len() as int) =~= c);
    // The record at `pos` in the new archive.
    assert(b2.subrange(pos, pos + 4) =~= b.subrange(pos, pos + 4));
    assert(u32_at(b2, pos) == u32_at(b, pos));
    assert(b2.subrange(pos + 4, pos + 4 + l) =~= e.path_bytes);
    assert(b2.subrange(pos + 4 + l, pos + 12 + l) =~= vstd::bytes::spec_u64_to_le_bytes(e.offset));
    assert(b2.subrange(pos + 12 + l, pos + 20 + l) =~= vstd::bytes::spec_u64_to_le_bytes(e.size));
    assert(b2.subrange(pos + 20 + l, pos + 36 + l) =~= vstd::bytes::spec_u128_to_le_bytes(e.md5));
    assert(entry_at(b2, pos) == e);
}

/// Walking the table is insensitive to byte changes confined to a window
/// `[lo, hi)` that avoids every record's length prefix and path bytes, and
/// to growth past the old end: the walk visits the same offsets, every
/// record keeps its path, and a record whose whole span avoids the window
/// is untouched.
proof fn lemma_scan_frame(b: Seq<u8>, b2: Seq<u8>, pos: int, n: nat, lo: int, hi: int)
    requires
        spec_scan(b, pos, n) is Ok,
        b.len() <= b2.len(),
        forall|i: int| 0 <= i < b.len() && !(lo <= i < hi) ==> b2[i] == b[i],
        ({
            let ps = spec_scan(b, pos, n)->Ok_0;
            forall|k: int|
                0 <= k < n ==> hi <= #[trigger] ps[k] || ps[k] + 4 + u32_at(b, ps[k]) <= lo
        }),
    ensures
        ({
            let ps = spec_scan(b, pos, n)->Ok_0;
            &&& spec_scan(b2, pos, n) == Ok::<Seq<int>, PckError>(ps)
            &&& forall|k: int| 0 <= k < n ==> u32_at(b2, #[trigger] ps[k]) == u32_at(b, ps[k])
            &&& forall|k: int|
                0 <= k < n ==> entry_at(b2, #[trigger] ps[k]).path_bytes == entry_at(
                    b,
                    ps[k],
                ).path_bytes
            &&& forall|k: int|
                0 <= k < n && (hi <= ps[k] || ps[k] + entry_size(b, ps[k]) <= lo) ==> entry_at(
                    b2,
                    #[trigger] ps[k],
                ) == entry_at(b, ps[k])
            &&& index_map(b2, ps) == index_map(b, ps)
        }),
    decreases n,
{
    let ps = spec_scan(b, pos, n)->Ok_0;
    lemma_scan_props(b, pos, n);
    if n == 0 {
        assert(spec_scan(b2, pos, n) == Ok::<Seq<int>, PckError>(ps));
    } else {
        let l = u32_at(b, pos) as int;
        let size = entry_size(b, pos);
        let rest = spec_scan(b, pos + size, (n - 1) as nat)->Ok_0;
        assert(ps =~= seq![pos] + rest);
        assert(forall|k: int| 1 <= k < n ==> ps[k] == rest[k - 1]);
        // The record at `pos` keeps its length prefix and path bytes.
        assert(hi <= pos || pos + 4 + l <= lo);
        assert(b2.subrange(pos, pos + 4) =~= b.subrange(pos, pos + 4));
        assert(u32_at(b2, pos) == u32_at(b, pos));
        assert(b2.subrange(pos + 4, pos + 4 + l) =~= b.subrange(pos + 4, pos + 4 + l));
        assert(entry_at(b2, pos).path_bytes == entry_at(b, pos).path_bytes);
        assert(entry_parseable(b2, pos));
        assert(entry_size(b2, pos) == size);
        // A record whose whole span avoids the window is untouched.
        if hi <= pos || pos + size <= lo {
            assert(b2.subrange(pos + 4 + l, pos + 12 + l) =~= b.subrange(
                pos + 4 + l,
                pos + 12 + l,
            ));
            assert(b2.subrange(pos + 12 + l, pos + 20 + l) =~= b.subrange(
                pos + 12 + l,
                pos + 20 + l,
            ));
            assert(b2.subrange(pos + 20 + l, pos + 36 + l) =~= b.subrange(
                pos + 20 + l,
                pos + 36 + l,
            ));
            assert(entry_at(b2, pos) == entry_at(b, pos));
        }
        // The rest of the walk.
        assert forall|k: int|
            0 <= k < n - 1 implies hi <= #[trigger] rest[k] || rest[k] + 4 + u32_at(b, rest[k])
            <= lo by {
            assert(ps[k + 1] == rest[k]);
            assert(hi <= ps[k + 1] || ps[k + 1] + 4 + u32_at(b, ps[k + 1]) <= lo);
        }
        lemma_scan_frame(b, b2, pos + size, (n - 1) as nat, lo, hi);
        assert(spec_scan(b2, pos, n) == Ok::<Seq<int>, PckError>(ps));
        assert forall|k: int|
            0 <= k < n && (hi <= ps[k] || ps[k] + entry_size(b, ps[k]) <= lo) implies entry_at(
            b2,
            #[trigger] ps[k],
        ) == entry_at(b, ps[k]) by {
            if k >= 1 {
                assert(entry_at(b2, rest[k - 1]) == entry_at(b, rest[k - 1]));
            }
        }
        lemma_index_map_congruence(b, b2, ps);
    }
}

/// Shared setup for the public laws: the scan of a successfully indexed
/// archive, the scanned record the index stores for a mapped path, and the
/// stability of the whole index under relocating that record.
proof fn lemma_relocate_common(b: Seq<u8>, p: Seq<char>, c: Seq<u8>) -> (j: int)
    requires
        spec_index_of(b) is Ok,
        spec_index_of(b)->Ok_0.1.contains_key(p),
        b.len() + c.len() <= u64::MAX,
    ensures
        ({
            let (h, m) = spec_index_of(b)->Ok_0;
            let ps = spec_scan(b, 88, u32_at(b, 84) as nat)->Ok_0;
            let pos = m[p] as int;
            let b2 = spec_relocated(b, pos, c);
            let l = u32_at(b, pos) as int;
            &&& 0 <= j < ps.len()
            &&& ps.len() == h.file_count
            &&& pos == ps[j]
            &&& path_of(entry_at(b, pos).path_bytes) == Some(p)
            &&& entry_parseable(b, pos)
            &&& 88 <= pos
            &&& pos + entry_size(b, pos) <= b.len()
            &&& forall|k: int| 0 <= k < ps.len() ==> entry_parseable(b, #[trigger] ps[k])
            &&& forall|jj: int, k: int|
                0 <= jj < k < ps.len() ==> #[trigger] ps[jj] + entry_size(b, ps[jj])
                    <= #[trigger] ps[k]
            &&& forall|k: int|
                0 <= k < ps.len() ==> path_of(entry_at(b, #[trigger] ps[k]).path_bytes) is Some
            &&& forall|k: int|
                0 <= k < ps.len() && k != j ==> entry_at(b2, #[trigger] ps[k]) == entry_at(
                    b,
                    ps[k],
                )
            &&& spec_index_of(b2) == Ok::<(crate::pck::Header, Map<Seq<char>, u64>), PckError>(
                (h, m),
            )
            &&& u32_at(b2, 84) == u32_at(b, 84)
            &&& spec_scan(b2, 88, u32_at(b, 84) as nat) == Ok::<Seq<int>, PckError>(ps)
            &&& b2.len() == b.len() + c.len()
            &&& forall|i: int|
                0 <= i < b.len() && !(pos + 4 + l <= i < pos + 36 + l) ==> #[trigger] b2[i]
                    == b[i]
            &&& b2.subrange(b.len() as int, b.len() as int + c.len() as int) == c
            &&& entry_at(b2, pos) == (EntryModel {
                path_bytes: entry_at(b, pos).path_bytes,
                offset: b.len() as u64,
                size: c.len() as u64,
                md5: md5_of(c),
            })
        }),
{
    let (h, m) = spec_index_of(b)->Ok_0;
    let n = u32_at(b, 84) as nat;
    let ps = spec_scan(b, 88, n)->Ok_0;
    lemma_scan_props(b, 88, n);
    lemma_index_map_value(b, ps, p);
    let j = choose|j: int|
        0 <= j < ps.len() && index_map(b, ps)[p] == #[trigger] ps[j] as u64 && path_of(
            entry_at(b, ps[j]).path_bytes,
        ) == Some(p);
    let pos = m[p] as int;
    assert(pos == ps[j]);
    let l = u32_at(b, pos) as int;
    let b2 = spec_relocated(b, pos, c);
    lemma_relocated_bytes(b, pos, c);
    let lo = pos + 4 + l;
    let hi = pos + 36 + l;
    assert forall|k: int|
        0 <= k < n implies hi <= #[trigger] ps[k] || ps[k] + 4 + u32_at(b, ps[k]) <= lo by {
        if k < j {
            assert(ps[k] + entry_size(b, ps[k]) <= ps[j]);
        } else if k > j {
            assert(ps[j] + entry_size(b, ps[j]) <= ps[k]);
        }
    }
    lemma_scan_frame(b, b2, 88, n, lo, hi);
    assert forall|k: int|
        0 <= k < ps.len() && k != j implies entry_at(b2, #[trigger] ps[k]) == entry_at(
        b,
        ps[k],
    ) by {
        if k < j {
            assert(ps[k] + entry_size(b, ps[k]) <= ps[j]);
        } else {
            assert(ps[j] + entry_size(b, ps[j]) <= ps[k]);
        }
    }
    // The header bytes sit below every record, so none of them moved.
    assert(b2.subrange(0, 4) =~= b.subrange(0, 4));
    assert(forall|i: int| 0 <= i < 88 ==> #[trigger] b2[i] == b[i]);
    assert(b2.subrange(4, 8) =~= b.subrange(4, 8));
    assert(b2.subrange(8, 12) =~= b.subrange(8, 12));
    assert(b2.subrange(12, 16) =~= b.subrange(12, 16));
    assert(b2.subrange(16, 20) =~= b.subrange(16, 20));
    assert(b2.subrange(84, 88) =~= b.subrange(84, 88));
    assert(u32_at(b2, 4) == u32_at(b, 4) && u32_at(b2, 8) == u32_at(b, 8) && u32_at(b2, 12)
        == u32_at(b, 12) && u32_at(b2, 16) == u32_at(b, 16) && u32_at(b2, 84) == u32_at(b, 84));
    assert(magic_ok(b2) == magic_ok(b)) by {
        assert(b2[0] == b[0] && b2[1] == b[1] && b2[2] == b[2] && b2[3] == b[3]);
    }
    assert(reserved_zero(b2) == reserved_zero(b)) by {
        assert(forall|i: int| 20 <= i < 84 ==> #[trigger] b2[i] == b[i]);
    }
    assert(header_error(b2) is None);
    assert(spec_header(b2) == spec_header(b));
    assert(spec_index_of(b2) == Ok::<(crate::pck::Header, Map<Seq<char>, u64>), PckError>((h, m)));
    j
}

/// Round trip: after relocating path `p` to content `c`, re-indexing the
/// archive succeeds with the same header and the very same index, `p`'s
/// entry now delimits exactly the appended bytes — re-reading its content
/// region yields `c` — and its stored checksum is `c`'s digest.
pub proof fn lemma_relocate_round_trip(b: Seq<u8>, p: Seq<char>, c: Seq<u8>)
    requires
        spec_index_of(b) is Ok,
        spec_index_of(b)->Ok_0.1.contains_key(p),
        b.len() + c.len() <= u64::MAX,
    ensures
        ({
            let (h, m) = spec_index_of(b)->Ok_0;
            let pos = m[p] as int;
            let b2 = spec_relocated(b, pos, c);
            let e2 = entry_at(b2, pos);
            &&& entry_parseable(b, pos)
            &&& spec_index_of(b2) == Ok::<(crate::pck::Header, Map<Seq<char>, u64>), PckError>(
                (h, m),
            )
            &&& b2.len() == b.len() + c.len()
            &&& e2.path_bytes == entry_at(b, pos).path_bytes
            &&& e2.offset == b.len() as u64
            &&& e2.size == c.len() as u64
            &&& e2.md5 == md5_of(c)
            &&& b2.subrange(e2.offset as int, e2.offset as int + e2.size as int) == c
        }),
{
    let _j = lemma_relocate_common(b, p, c);
}

/// Relocating path `p` does not disturb any other path `q`: `q` keeps its
/// table offset, its entry record — path bytes and metadata — is
/// byte-identical, and its content region is byte-identical, provided that
/// region lies within the archive and does not overlap `p`'s table record.
pub proof fn lemma_relocate_preserves_others(b: Seq<u8>, p: Seq<char>, q: Seq<char>, c: Seq<u8>)
    requires
        spec_index_of(b) is Ok,
        spec_index_of(b)->Ok_0.1.contains_key(p),
        spec_index_of(b)->Ok_0.1.contains_key(q),
        p != q,
        b.len() + c.len() <= u64::MAX,
        ({
            let m = spec_index_of(b)->Ok_0.1;
            let eq = entry_at(b, m[q] as int);
            let pp = m[p] as int;
            &&& eq.offset as int + eq.size as int <= b.len()
            &&& (eq.offset as int + eq.size as int <= pp || eq.offset as int >= pp + entry_size(
                b,
                pp,
            ))
        }),
    ensures
        ({
            let (h, m) = spec_index_of(b)->Ok_0;
            let b2 = spec_relocated(b, m[p] as int, c);
            let eq = entry_at(b, m[q] as int);
            &&& spec_index_of(b2) == Ok::<(crate::pck::Header, Map<Seq<char>, u64>), PckError>(
                (h, m),
            )
            &&& spec_index_of(b2)->Ok_0.1[q] == m[q]
            &&& entry_at(b2, m[q] as int) == eq
            &&& b2.subrange(eq.offset as int, eq.offset as int + eq.size as int) == b.subrange(
                eq.offset as int,
                eq.offset as int + eq.size as int,
            )
        }),
{
    let (h, m) = spec_index_of(b)->Ok_0;
    let n = u32_at(b, 84) as nat;
    let ps = spec_scan(b, 88, n)->Ok_0;
    let j = lemma_relocate_common(b, p, c);
    lemma_index_map_value(b, ps, q);
    let k = choose|k: int|
        0 <= k < ps.len() && index_map(b, ps)[q] == #[trigger] ps[k] as u64 && path_of(
            entry_at(b, ps[k]).path_bytes,
        ) == Some(q);
    assert(m[q] as int == ps[k]);
    assert(k != j);
    let pos = m[p] as int;
    let l = u32_at(b, pos) as int;
    let b2 = spec_relocated(b, pos, c);
    let eq = entry_at(b, ps[k]);
    assert(entry_at(b2, ps[k]) == eq);
    assert(b2.subrange(eq.offset as int, eq.offset as int + eq.size as int) =~= b.subrange(
        eq.offset as int,
        eq.offset as int + eq.size as int,
    )) by {
        assert(forall|i: int|
            eq.offset as int <= i < eq.offset as int + eq.size as int ==> #[trigger] b2[i]
                == b[i]);
    }
}

/// Relocating the same path twice, first to `c1` and then to `c2`, leaves
/// the entry delimiting exactly `c2`'s bytes with `c2`'s digest, while
/// `c1`'s bytes are still physically present at the first archive end but
/// referenced by no entry — provided every entry's content initially lay
/// within the archive.
pub proof fn lemma_relocate_twice(b: Seq<u8>, p: Seq<char>, c1: Seq<u8>, c2: Seq<u8>)
    requires
        spec_index_of(b) is Ok,
        spec_index_of(b)->Ok_0.1.contains_key(p),
        b.len() + c1.len() + c2.len() <= u64::MAX,
        ({
            let ps = spec_scan(b, 88, u32_at(b, 84) as nat)->Ok_0;
            forall|k: int|
                0 <= k < ps.len() ==> entry_at(b, #[trigger] ps[k]).offset as int + entry_at(
                    b,
                    ps[k],
                ).size as int <= b.len()
        }),
    ensures
        ({
            let (h, m) = spec_index_of(b)->Ok_0;
            let pos = m[p] as int;
            let b2 = spec_relocated(b, pos, c1);
            let b3 = spec_relocated(b2, pos, c2);
            let e3 = entry_at(b3, pos);
            let ps = spec_scan(b, 88, u32_at(b, 84) as nat)->Ok_0;
            &&& spec_index_of(b3) == Ok::<(crate::pck::Header, Map<Seq<char>, u64>), PckError>(
                (h, m),
            )
            &&& e3.offset as int == b.len() + c1.len()
            &&& e3.size == c2.len() as u64
            &&& e3.md5 == md5_of(c2)
            &&& b3.subrange(e3.offset as int, e3.offset as int + e3.size as int) == c2
            &&& b3.subrange(b.len() as int, b.len() as int + c1.len() as int) == c1
            &&& forall|k: int|
                0 <= k < ps.len() ==> ({
                    let e = entry_at(b3, #[trigger] ps[k]);
                    e.offset as int >= b.len() + c1.len() || e.offset as int + e.size as int
                        <= b.len()
                })
        }),
{
    let (h, m) = spec_index_of(b)->Ok_0;
    let n = u32_at(b, 84) as nat;
    let ps = spec_scan(b, 88, n)->Ok_0;
    let pos = m[p] as int;
    let l = u32_at(b, pos) as int;
    let b2 = spec_relocated(b, pos, c1);
    let b3 = spec_relocated(b2, pos, c2);
    let j = lemma_relocate_common(b, p, c1);
    let j2 = lemma_relocate_common(b2, p, c2);
    let ps2 = spec_scan(b2, 88, u32_at(b2, 84) as nat)->Ok_0;
    assert(ps2 == ps);
    // The two walks store `p` at the same record: record starts are
    // strictly increasing, so a start determines its position in the walk.
    assert(j2 == j) by {
        if j2 < j {
            assert(ps[j2] + entry_size(b, ps[j2]) <= ps[j]);
        } else if j < j2 {
            assert(ps[j] + entry_size(b, ps[j]) <= ps[j2]);
        }
    }
    assert(u32_at(b2, pos) == l);
    // Bytes appended by the first relocation survive the second: the second
    // only rewrites metadata inside the old table, below the first end.
    assert(b3.subrange(b.len() as int, b.len() as int + c1.len() as int) =~= c1) by {
        assert(forall|i: int|
            b.len() <= i < b.len() + c1.len() ==> #[trigger] b3[i] == b2[i]);
        assert(b2.subrange(b.len() as int, b.len() as int + c1.len() as int) == c1);
        assert(forall|i: int|
            0 <= i < c1.len() ==> #[trigger] b2.subrange(
                b.len() as int,
                b.len() as int + c1.len() as int,
            )[i] == b2[b.len() + i]);
    }
    // After both relocations no entry's content region covers `c1`'s bytes.
    assert forall|k: int| 0 <= k < ps.len() implies ({
        let e = entry_at(b3, #[trigger] ps[k]);
        e.offset as int >= b.len() + c1.len() || e.offset as int + e.size as int <= b.len()
    }) by {
        if k != j {
            assert(entry_at(b2, ps[k]) == entry_at(b, ps[k]));
            assert(entry_at(b3, ps[k]) == entry_at(b2, ps[k]));
        }
    }
}

/// An archive whose entries carry pairwise distinct paths indexes to
/// exactly one mapping per entry: the index has as many paths as the
/// header declares entries.
pub proof fn lemma_index_count(b: Seq<u8>)
    requires
        spec_index_of(b) is Ok,
        ({
            let ps = spec_scan(b, 88, u32_at(b, 84) as nat)->Ok_0;
            forall|j: int, k: int|
                0 <= j < k < ps.len() ==> path_of(entry_at(b, #[trigger] ps[j]).path_bytes)
                    != path_of(entry_at(b, #[trigger] ps[k]).path_bytes)
        }),
    ensures
        spec_index_of(b)->Ok_0.1.dom().finite(),
        spec_index_of(b)->Ok_0.1.dom().len() == spec_index_of(b)->Ok_0.0.file_count,
{
    let n = u32_at(b, 84) as nat;
    lemma_scan_props(b, 88, n);
    lemma_index_map_count(b, spec_scan(b, 88, n)->Ok_0);
}

/// Distinct decoded paths make the index one-to-one with the scanned
/// records.
proof fn lemma_index_map_count(b: Seq<u8>, ps: Seq<int>)
    requires
        forall|k: int| 0 <= k < ps.len() ==> path_of(entry_at(b, #[trigger] ps[k]).path_bytes) is Some,
        forall|j: int, k: int|
            0 <= j < k < ps.len() ==> path_of(entry_at(b, #[trigger] ps[j]).path_bytes) != path_of(
                entry_at(b, #[trigger] ps[k]).path_bytes,
            ),
    ensures
        index_map(b, ps).dom().finite(),
        index_map(b, ps).dom().len() == ps.len(),
    decreases ps.len(),
{
    if ps.len() > 0 {
        lemma_index_map_count(b, ps.drop_last());
        let key = path_of(entry_at(b, ps.last()).path_bytes)->Some_0;
        if index_map(b, ps.drop_last()).contains_key(key) {
            lemma_index_map_value(b, ps.drop_last(), key);
            let j = choose|j: int|
                0 <= j < ps.drop_last().len() && index_map(b, ps.drop_last())[key]
                    == #[trigger] ps.drop_last()[j] as u64 && path_of(
                    entry_at(b, ps.drop_last()[j]).path_bytes,
                ) == Some(key);
            assert(path_of(entry_at(b, ps[j]).path_bytes) == path_of(
                entry_at(b, ps[ps.len() - 1]).path_bytes,
            ));
            assert(false);
        }
        assert(index_map(b, ps).dom() =~= index_map(b, ps.drop_last()).dom().insert(key));
    }
}

} // verus!
