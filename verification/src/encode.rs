//! The header serializer: turns a packed archive into the on-disk byte
//! image.
//!
//! Layout (all multi-byte integers big-endian): a 4-byte payload offset `O`,
//! the 6-byte format magic, the entry encodings until byte `O`, then the raw
//! payload.  Each entry is the path's bytes, a terminating zero byte, a
//! one-byte pointer count, and per pointer the inclusive start and end as
//! 8-byte values.

use crate::be_bytes::{lemma_u32_be_round_trip, push_u32_be, push_u64_be, spec_u32_be,
    spec_u32_of_be, spec_u64_be};
use crate::errors::ArchiveError;
use crate::pack::append_bytes;
use crate::types::{ArchiveModel, EntryModel, PackedArchive, PackedOffset};
use vstd::prelude::*;

verus! {

/// The fixed six-byte format magic, the ASCII of `LSArc1`.
pub open spec fn magic() -> Seq<u8> {
    seq![0x4Cu8, 0x53u8, 0x41u8, 0x72u8, 0x63u8, 0x31u8]
}

/// The sixteen bytes of one pointer: start then end, big-endian.
pub open spec fn spec_ptr_bytes(p: PackedOffset) -> Seq<u8> {
    spec_u64_be(p.0) + spec_u64_be(p.1)
}

/// The encodings of a pointer list, concatenated in order.
pub open spec fn spec_ptrs_bytes(ps: Seq<PackedOffset>) -> Seq<u8>
    decreases ps.len(),
{
    if ps.len() == 0 {
        Seq::empty()
    } else {
        spec_ptr_bytes(ps[0]) + spec_ptrs_bytes(ps.skip(1))
    }
}

/// The encoding of one header entry.
pub open spec fn spec_entry_bytes(e: EntryModel) -> Seq<u8> {
    e.path + seq![0u8] + seq![e.pointers.len() as u8] + spec_ptrs_bytes(e.pointers)
}

/// The encodings of the header entries, concatenated in order.
pub open spec fn spec_entries_bytes(es: Seq<EntryModel>) -> Seq<u8>
    decreases es.len(),
{
    if es.len() == 0 {
        Seq::empty()
    } else {
        spec_entry_bytes(es[0]) + spec_entries_bytes(es.skip(1))
    }
}

/// The payload offset of an archive: offset field, magic and entry
/// encodings precede the payload.
pub open spec fn spec_payload_offset(a: ArchiveModel) -> int {
    10 + spec_entries_bytes(a.entries).len() as int
}

/// The whole byte image of an archive.
pub open spec fn spec_archive_bytes(a: ArchiveModel) -> Seq<u8> {
    spec_u32_be(spec_payload_offset(a) as u32) + magic() + spec_entries_bytes(a.entries)
        + a.payload
}

/// No entry's path contains the zero byte that terminates paths on disk.
/// This is a constraint of the format: paths are not escaped.
pub open spec fn paths_zero_free(es: Seq<EntryModel>) -> bool {
    forall|i: int, k: int|
        0 <= i < es.len() && 0 <= k < es[i].path.len() ==> (#[trigger] es[i].path[k]) != 0
}

/// An archive the format can represent: every pointer count fits the
/// one-byte field and the payload offset fits its 4-byte field.
pub open spec fn archive_fits(a: ArchiveModel) -> bool {
    &&& forall|i: int| 0 <= i < a.entries.len() ==> (#[trigger] a.entries[i]).pointers.len() <= 255
    &&& spec_payload_offset(a) <= u32::MAX
}

pub proof fn lemma_ptrs_bytes_len(ps: Seq<PackedOffset>)
    ensures
        spec_ptrs_bytes(ps).len() == 16 * ps.len(),
    decreases ps.len(),
{
    if ps.len() > 0 {
        lemma_ptrs_bytes_len(ps.skip(1));
    }
}

pub proof fn lemma_ptrs_bytes_push(ps: Seq<PackedOffset>, p: PackedOffset)
    ensures
        spec_ptrs_bytes(ps.push(p)) == spec_ptrs_bytes(ps) + spec_ptr_bytes(p),
    decreases ps.len(),
{
    if ps.len() == 0 {
        assert(ps.push(p).skip(1) =~= Seq::<PackedOffset>::empty());
        assert(ps.push(p)[0] == p);
        assert(spec_ptrs_bytes(ps.push(p)) == spec_ptr_bytes(p) + spec_ptrs_bytes(
            Seq::<PackedOffset>::empty(),
        ));
        assert(spec_ptr_bytes(p) + Seq::<u8>::empty() =~= Seq::<u8>::empty() + spec_ptr_bytes(p));
    } else {
        assert(ps.push(p)[0] == ps[0]);
        assert(ps.push(p).skip(1) =~= ps.skip(1).push(p));
        lemma_ptrs_bytes_push(ps.skip(1), p);
        assert(spec_ptrs_bytes(ps.push(p)) == spec_ptr_bytes(ps[0]) + spec_ptrs_bytes(
            ps.skip(1).push(p),
        ));
        assert(spec_ptrs_bytes(ps) == spec_ptr_bytes(ps[0]) + spec_ptrs_bytes(ps.skip(1)));
        assert(spec_ptr_bytes(ps[0]) + (spec_ptrs_bytes(ps.skip(1)) + spec_ptr_bytes(p)) =~= (
        spec_ptr_bytes(ps[0]) + spec_ptrs_bytes(ps.skip(1))) + spec_ptr_bytes(p));
    }
}

pub proof fn lemma_entries_bytes_push(es: Seq<EntryModel>, e: EntryModel)
    ensures
        spec_entries_bytes(es.push(e)) == spec_entries_bytes(es) + spec_entry_bytes(e),
    decreases es.len(),
{
    if es.len() == 0 {
        assert(es.push(e).skip(1) =~= Seq::<EntryModel>::empty());
        assert(es.push(e)[0] == e);
        assert(spec_entries_bytes(es.push(e)) == spec_entry_bytes(e) + spec_entries_bytes(
            Seq::<EntryModel>::empty(),
        ));
        assert(spec_entry_bytes(e) + Seq::<u8>::empty() =~= Seq::<u8>::empty() + spec_entry_bytes(
            e,
        ));
    } else {
        assert(es.push(e)[0] == es[0]);
        assert(es.push(e).skip(1) =~= es.skip(1).push(e));
        lemma_entries_bytes_push(es.skip(1), e);
        assert(spec_entries_bytes(es.push(e)) == spec_entry_bytes(es[0]) + spec_entries_bytes(
            es.skip(1).push(e),
        ));
        assert(spec_entries_bytes(es) == spec_entry_bytes(es[0]) + spec_entries_bytes(es.skip(1)));
        assert(spec_entry_bytes(es[0]) + (spec_entries_bytes(es.skip(1)) + spec_entry_bytes(e))
            =~= (spec_entry_bytes(es[0]) + spec_entries_bytes(es.skip(1))) + spec_entry_bytes(e));
    }
}

/// The 16-byte record of pointer `k` sits at offset `16 k` of the pointer
/// list's encoding.
pub proof fn lemma_ptrs_bytes_index(ps: Seq<PackedOffset>, k: int)
    requires
        0 <= k < ps.len(),
    ensures
        spec_ptrs_bytes(ps).subrange(16 * k, 16 * k + 16) == spec_ptr_bytes(ps[k]),
    decreases k,
{
    lemma_ptrs_bytes_len(ps);
    lemma_ptrs_bytes_len(ps.skip(1));
    if k == 0 {
        assert(spec_ptrs_bytes(ps).subrange(0, 16) =~= spec_ptr_bytes(ps[0]));
    } else {
        lemma_ptrs_bytes_index(ps.skip(1), k - 1);
        assert(ps.skip(1)[k - 1] == ps[k]);
        assert(spec_ptrs_bytes(ps).subrange(16 * k, 16 * k + 16) =~= spec_ptrs_bytes(
            ps.skip(1),
        ).subrange(16 * (k - 1), 16 * (k - 1) + 16)) by {
            assert(forall|t: int|
                0 <= t < 16 ==> #[trigger] spec_ptrs_bytes(ps).subrange(
                    16 * k,
                    16 * k + 16,
                )[t] == spec_ptrs_bytes(ps)[16 * k + t] && spec_ptrs_bytes(ps)[16 * k + t]
                    == spec_ptrs_bytes(ps.skip(1))[16 * (k - 1) + t] && spec_ptrs_bytes(
                    ps.skip(1),
                ).subrange(16 * (k - 1), 16 * (k - 1) + 16)[t] == spec_ptrs_bytes(ps.skip(1))[16 * (
                k - 1) + t]);
        }
    }
}

/// The regions of one entry's encoding: the path's bytes, the zero
/// terminator, the pointer-count byte, then one 16-byte record per pointer
/// and nothing else.
pub proof fn lemma_entry_bytes_layout(e: EntryModel)
    ensures
        spec_entry_bytes(e).len() == e.path.len() + 2 + 16 * e.pointers.len(),
        spec_entry_bytes(e).subrange(0, e.path.len() as int) == e.path,
        spec_entry_bytes(e)[e.path.len() as int] == 0u8,
        spec_entry_bytes(e)[e.path.len() as int + 1] == e.pointers.len() as u8,
        forall|k: int|
            0 <= k < e.pointers.len() ==> spec_entry_bytes(e).subrange(
                e.path.len() as int + 2 + 16 * k,
                e.path.len() as int + 2 + 16 * k + 16,
            ) == spec_ptr_bytes(#[trigger] e.pointers[k]),
{
    let eb = spec_entry_bytes(e);
    let plen = e.path.len() as int;
    lemma_ptrs_bytes_len(e.pointers);
    assert(eb.subrange(0, plen) =~= e.path);
    assert forall|k: int| 0 <= k < e.pointers.len() implies eb.subrange(
        plen + 2 + 16 * k,
        plen + 2 + 16 * k + 16,
    ) == spec_ptr_bytes(#[trigger] e.pointers[k]) by {
        lemma_ptrs_bytes_index(e.pointers, k);
        assert(eb.subrange(plen + 2 + 16 * k, plen + 2 + 16 * k + 16) =~= spec_ptrs_bytes(
            e.pointers,
        ).subrange(16 * k, 16 * k + 16)) by {
            assert(forall|t: int|
                0 <= t < 16 ==> #[trigger] eb.subrange(
                    plen + 2 + 16 * k,
                    plen + 2 + 16 * k + 16,
                )[t] == eb[plen + 2 + 16 * k + t] && eb[plen + 2 + 16 * k + t] == spec_ptrs_bytes(
                    e.pointers,
                )[16 * k + t] && spec_ptrs_bytes(e.pointers).subrange(16 * k, 16 * k + 16)[t]
                    == spec_ptrs_bytes(e.pointers)[16 * k + t]);
        }
    }
}

/// Where each region of a produced archive lies: the offset field reads back
/// as the byte position where the payload begins, the magic and the entry
/// encodings fill everything before it, and the payload everything after.
pub proof fn lemma_offset_field_correct(a: ArchiveModel)
    requires
        spec_payload_offset(a) <= u32::MAX,
    ensures
        spec_archive_bytes(a).len() == spec_payload_offset(a) + a.payload.len(),
        spec_u32_of_be(spec_archive_bytes(a).subrange(0, 4)) == spec_payload_offset(a),
        spec_archive_bytes(a).subrange(4, 10) == magic(),
        spec_archive_bytes(a).subrange(10, spec_payload_offset(a)) == spec_entries_bytes(
            a.entries,
        ),
        spec_archive_bytes(a).subrange(
            spec_payload_offset(a),
            spec_archive_bytes(a).len() as int,
        ) == a.payload,
{
    let b = spec_archive_bytes(a);
    let off = spec_payload_offset(a);
    lemma_u32_be_round_trip(off as u32);
    assert(b.subrange(0, 4) =~= spec_u32_be(off as u32));
    assert(b.subrange(4, 10) =~= magic());
    assert(b.subrange(10, off) =~= spec_entries_bytes(a.entries));
    assert(b.subrange(off, b.len() as int) =~= a.payload);
}

/// Serializes an archive into its on-disk byte image.  Fails with a
/// capacity error when a pointer count does not fit its one-byte field or
/// the header outgrows the 4-byte offset field.
pub fn encode_archive(archive: &PackedArchive) -> (r: Result<Vec<u8>, ArchiveError>)
    requires
        paths_zero_free(archive@.entries),
    ensures
        r is Ok <==> archive_fits(archive@),
        r matches Ok(b) ==> b@ == spec_archive_bytes(archive@),
        r matches Err(e) ==> e is CapacityError,
{
    let ghost es = archive@.entries;
    let n = archive.header.len();
    assert(es.len() == n);

    let mut i: usize = 0;
    while i < n
        invariant
            n == es.len(),
            es == archive@.entries,
            i <= n,
            forall|t: int| 0 <= t < i ==> (#[trigger] es[t]).pointers.len() <= 255,
        decreases n - i,
    {
        assert(es[i as int].pointers.len() == archive.header@[i as int].pointers@.len());
        if archive.header[i].pointers.len() > 255 {
            assert(!archive_fits(archive@));
            return Err(ArchiveError::CapacityError);
        }
        i = i + 1;
    }

    let mut eb: Vec<u8> = Vec::new();
    let mut i: usize = 0;
    proof {
        assert(es.take(0) =~= Seq::<EntryModel>::empty());
    }
    while i < n
        invariant
            n == es.len(),
            es == archive@.entries,
            i <= n,
            forall|t: int| 0 <= t < n ==> (#[trigger] es[t]).pointers.len() <= 255,
            eb@ == spec_entries_bytes(es.take(i as int)),
        decreases n - i,
    {
        let ghost prefix = eb@;
        let e = &archive.header[i];
        assert(e@ == es[i as int]);
        append_bytes(&mut eb, &e.path);
        eb.push(0);
        let cnt: u8 = e.pointers.len() as u8;
        eb.push(cnt);
        proof {
            assert(eb@ =~= prefix + e.path@ + seq![0u8] + seq![cnt]);
            assert(e.pointers@.take(0) =~= Seq::<PackedOffset>::empty());
            assert(prefix + e.path@ + seq![0u8] + seq![cnt] + spec_ptrs_bytes(e.pointers@.take(0))
                =~= prefix + e.path@ + seq![0u8] + seq![cnt]);
        }
        let m = e.pointers.len();
        let mut k: usize = 0;
        while k < m
            invariant
                m == e.pointers@.len(),
                k <= m,
                eb@ == prefix + e.path@ + seq![0u8] + seq![cnt] + spec_ptrs_bytes(
                    e.pointers@.take(k as int),
                ),
            decreases m - k,
        {
            let p = e.pointers[k];
            push_u64_be(&mut eb, p.0);
            push_u64_be(&mut eb, p.1);
            proof {
                assert(e.pointers@.take(k + 1) =~= e.pointers@.take(k as int).push(p));
                lemma_ptrs_bytes_push(e.pointers@.take(k as int), p);
                assert(eb@ =~= prefix + e.path@ + seq![0u8] + seq![cnt] + spec_ptrs_bytes(
                    e.pointers@.take(k + 1),
                ));
            }
            k = k + 1;
        }
        proof {
            assert(e.pointers@.take(m as int) =~= e.pointers@);
            assert(es.take(i + 1) =~= es.take(i as int).push(es[i as int]));
            lemma_entries_bytes_push(es.take(i as int), es[i as int]);
            assert(e.path@ + seq![0u8] + seq![cnt] + spec_ptrs_bytes(e.pointers@)
                =~= spec_entry_bytes(es[i as int]));
            assert(eb@ =~= spec_entries_bytes(es.take(i + 1)));
        }
        i = i + 1;
    }
    proof {
        assert(es.take(n as int) =~= es);
    }

    if eb.len() as u64 > 0xFFFF_FFFFu64 - 10 {
        return Err(ArchiveError::CapacityError);
    }
    let off: u32 = (eb.len() as u32) + 10;
    assert(off == spec_payload_offset(archive@));

    let mut out: Vec<u8> = Vec::new();
    push_u32_be(&mut out, off);
    out.push(0x4C);
    out.push(0x53);
    out.push(0x41);
    out.push(0x72);
    out.push(0x63);
    out.push(0x31);
    proof {
        assert(out@ =~= spec_u32_be(off) + magic());
    }
    append_bytes(&mut out, &eb);
    append_bytes(&mut out, &archive.bytes);
    proof {
        assert(out@ =~= spec_archive_bytes(archive@));
    }
    Ok(out)
}

} // verus!
