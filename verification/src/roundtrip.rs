//! The round-trip law: an archive produced by the packer and the serializer
//! parses back to exactly the original paths and file contents.

use crate::be_bytes::{lemma_u64_be_round_trip, spec_u64_be};
use crate::encode::{archive_fits, lemma_offset_field_correct, lemma_ptrs_bytes_len,
    paths_zero_free, spec_archive_bytes, spec_entries_bytes, spec_entry_bytes,
    spec_payload_offset, spec_ptr_bytes, spec_ptrs_bytes};
use crate::pack::pack_ok_archive;
use crate::parse::{spec_find_nul, spec_parse_archive, spec_parse_entries, spec_parse_pointers};
use crate::types::{gather, ptrs_in_payload, ArchiveModel, EntryModel, PackedFile, PackedOffset};
use vstd::prelude::*;

verus! {

/// A zero byte at `p`, with nothing zero from `c` up to it, is what the
/// terminator scan finds.
proof fn lemma_find_nul_at(b: Seq<u8>, c: int, off: int, p: int)
    requires
        0 <= c <= p < off <= b.len(),
        b[p] == 0,
        forall|j: int| c <= j < p ==> b[j] != 0,
    ensures
        spec_find_nul(b, c, off) == Some(p),
    decreases p - c,
{
    if c < p {
        lemma_find_nul_at(b, c + 1, off, p);
    }
}

/// Parsing the encoding of a pointer list, laid down at header position
/// `c` of a byte image whose payload starts at `off`, yields exactly the
/// bytes the pointers gather from the payload.
proof fn lemma_parse_pointers_of_encoding(
    b: Seq<u8>,
    c: int,
    ps: Seq<PackedOffset>,
    off: int,
    payload: Seq<u8>,
)
    requires
        0 <= c,
        c + 16 * ps.len() <= off <= b.len(),
        b.subrange(c, c + 16 * ps.len()) == spec_ptrs_bytes(ps),
        b.subrange(off, b.len() as int) == payload,
        off + payload.len() == b.len(),
        ptrs_in_payload(ps, payload.len() as int),
    ensures
        spec_parse_pointers(b, c, ps.len() as int, off) == Some(gather(payload, ps)),
    decreases ps.len(),
{
    if ps.len() == 0 {
        assert(gather(payload, ps) =~= Seq::<u8>::empty());
    } else {
        let p0 = ps[0];
        let pb = spec_ptrs_bytes(ps);
        let rest = spec_ptrs_bytes(ps.skip(1));
        assert(pb == spec_ptr_bytes(p0) + rest);
        lemma_ptrs_bytes_len(ps.skip(1));
        assert(spec_u64_be(p0.0).len() == 8 && spec_u64_be(p0.1).len() == 8);
        assert(spec_ptr_bytes(p0).len() == 16);
        assert(forall|t: int| 0 <= t < 16 * ps.len() ==> #[trigger] b[c + t] == pb[t]) by {
            assert(forall|t: int|
                0 <= t < 16 * ps.len() ==> #[trigger] b.subrange(c, c + 16 * ps.len())[t] == b[c
                    + t]);
        }
        assert(b.subrange(c, c + 8) =~= spec_u64_be(p0.0)) by {
            assert(forall|t: int|
                0 <= t < 8 ==> #[trigger] b.subrange(c, c + 8)[t] == b[c + t] && (
                spec_ptr_bytes(p0) + rest)[t] == spec_ptr_bytes(p0)[t] && (spec_u64_be(p0.0)
                    + spec_u64_be(p0.1))[t] == spec_u64_be(p0.0)[t]);
        }
        assert(b.subrange(c + 8, c + 16) =~= spec_u64_be(p0.1)) by {
            assert(forall|t: int|
                0 <= t < 8 ==> #[trigger] b.subrange(c + 8, c + 16)[t] == b[c + (t + 8)] && (
                spec_ptr_bytes(p0) + rest)[t + 8] == spec_ptr_bytes(p0)[t + 8] && (spec_u64_be(
                    p0.0,
                ) + spec_u64_be(p0.1))[t + 8] == spec_u64_be(p0.1)[t]);
        }
        lemma_u64_be_round_trip(p0.0);
        lemma_u64_be_round_trip(p0.1);
        assert(p0.0 <= p0.1 < payload.len());
        assert(b.subrange(p0.0 as int + off, p0.1 as int + off + 1) =~= payload.subrange(
            p0.0 as int,
            p0.1 + 1,
        ));
        assert(b.subrange(c + 16, c + 16 + 16 * ps.skip(1).len()) =~= rest) by {
            assert(forall|t: int|
                0 <= t < 16 * ps.skip(1).len() ==> #[trigger] b.subrange(
                    c + 16,
                    c + 16 + 16 * ps.skip(1).len(),
                )[t] == b[c + (t + 16)] && (spec_ptr_bytes(p0) + rest)[t + 16] == rest[t]);
        }
        assert(ptrs_in_payload(ps.skip(1), payload.len() as int)) by {
            assert(forall|k: int|
                0 <= k < ps.skip(1).len() ==> #[trigger] ps.skip(1)[k] == ps[k + 1]);
        }
        lemma_parse_pointers_of_encoding(b, c + 16, ps.skip(1), off, payload);
        assert(spec_parse_pointers(b, c, ps.len() as int, off) == Some(
            payload.subrange(p0.0 as int, p0.1 + 1) + gather(payload, ps.skip(1)),
        ));
    }
}

/// Every entry's pointer count fits the one-byte field.
pub open spec fn counts_fit(es: Seq<EntryModel>) -> bool {
    forall|i: int| 0 <= i < es.len() ==> (#[trigger] es[i]).pointers.len() <= 255
}

/// Every entry's pointers lie inside a payload of `plen` bytes.
pub open spec fn entries_in_payload(es: Seq<EntryModel>, plen: int) -> bool {
    forall|i: int| 0 <= i < es.len() ==> ptrs_in_payload((#[trigger] es[i]).pointers, plen)
}

/// The (path, content) pairs an entry list denotes against a payload.
pub open spec fn entries_contents(es: Seq<EntryModel>, payload: Seq<u8>) -> Seq<
    (Seq<u8>, Seq<u8>),
> {
    Seq::new(es.len(), |i: int| (es[i].path, gather(payload, es[i].pointers)))
}

/// Parsing the encoding of an entry list, laid down from header position
/// `c` up to exactly `off`, yields every entry's path and the content its
/// pointers gather.
proof fn lemma_parse_entries_of_encoding(
    b: Seq<u8>,
    c: int,
    es: Seq<EntryModel>,
    off: int,
    payload: Seq<u8>,
)
    requires
        0 <= c,
        c + spec_entries_bytes(es).len() == off,
        off <= b.len(),
        b.subrange(c, off) == spec_entries_bytes(es),
        b.subrange(off, b.len() as int) == payload,
        off + payload.len() == b.len(),
        paths_zero_free(es),
        counts_fit(es),
        entries_in_payload(es, payload.len() as int),
    ensures
        spec_parse_entries(b, c, off) == Some(entries_contents(es, payload)),
    decreases es.len(),
{
    if es.len() == 0 {
        assert(c == off);
        assert(entries_contents(es, payload) =~= Seq::<(Seq<u8>, Seq<u8>)>::empty());
    } else {
        let e0 = es[0];
        let eb = spec_entry_bytes(e0);
        let rest = spec_entries_bytes(es.skip(1));
        assert(spec_entries_bytes(es) == eb + rest);
        lemma_ptrs_bytes_len(e0.pointers);
        let plen = e0.path.len() as int;
        let n = e0.pointers.len() as int;
        assert(eb.len() == plen + 2 + 16 * n);
        assert(c + eb.len() <= off);

        // Each region of the entry's bytes, as laid down in `b`.
        assert forall|t: int| 0 <= t < eb.len() implies #[trigger] b[c + t] == eb[t] by {
            assert(b.subrange(c, off)[t] == b[c + t]);
            assert((eb + rest)[t] == eb[t]);
        }
        assert(forall|t: int| 0 <= t < plen ==> #[trigger] eb[t] == e0.path[t]) by {
            assert(forall|t: int|
                0 <= t < plen ==> #[trigger] (e0.path + seq![0u8])[t] == e0.path[t] && (e0.path
                    + seq![0u8] + seq![e0.pointers.len() as u8])[t] == (e0.path + seq![0u8])[t]
                    && ((e0.path + seq![0u8] + seq![e0.pointers.len() as u8]) + spec_ptrs_bytes(
                    e0.pointers,
                ))[t] == (e0.path + seq![0u8] + seq![e0.pointers.len() as u8])[t]);
        }
        assert(eb[plen] == 0u8);
        assert(eb[plen + 1] == e0.pointers.len() as u8);
        assert(forall|t: int|
            0 <= t < 16 * n ==> #[trigger] eb[plen + 2 + t] == spec_ptrs_bytes(e0.pointers)[t]);

        let p = c + plen;
        assert(b[p] == 0);
        assert forall|j: int| c <= j < p implies b[j] != 0 by {
            let t = j - c;
            assert(b[c + t] == eb[t]);
            assert(eb[t] == e0.path[t]);
            assert(es[0].path[t] != 0);
        }
        lemma_find_nul_at(b, c, off, p);
        assert(b.subrange(c, p) =~= e0.path);

        assert(b[c + (plen + 1)] == eb[plen + 1]);
        assert(b[p + 1] == e0.pointers.len() as u8);
        assert(n <= 255);
        assert(b[p + 1] as int == n);

        assert(b.subrange(p + 2, p + 2 + 16 * n).len() == spec_ptrs_bytes(e0.pointers).len());
        assert forall|t: int| 0 <= t < 16 * n implies #[trigger] b.subrange(
            p + 2,
            p + 2 + 16 * n,
        )[t] == spec_ptrs_bytes(e0.pointers)[t] by {
            assert(b.subrange(p + 2, p + 2 + 16 * n)[t] == b[c + (plen + 2 + t)]);
            assert(b[c + (plen + 2 + t)] == eb[plen + 2 + t]);
        }
        assert(b.subrange(p + 2, p + 2 + 16 * n) =~= spec_ptrs_bytes(e0.pointers));
        lemma_parse_pointers_of_encoding(b, p + 2, e0.pointers, off, payload);

        let c2 = c + eb.len();
        assert(b.subrange(c2, off) =~= rest) by {
            assert(forall|t: int|
                0 <= t < rest.len() ==> #[trigger] b.subrange(c2, off)[t] == b[c2 + t] && b[c2 + t]
                    == spec_entries_bytes(es)[eb.len() + t]);
        }
        assert(paths_zero_free(es.skip(1)) && counts_fit(es.skip(1)) && entries_in_payload(
            es.skip(1),
            payload.len() as int,
        )) by {
            assert(forall|i: int|
                0 <= i < es.skip(1).len() ==> #[trigger] es.skip(1)[i] == es[i + 1]);
            assert(forall|i: int, k: int|
                0 <= i < es.skip(1).len() && 0 <= k < es.skip(1)[i].path.len()
                    ==> (#[trigger] es.skip(1)[i].path[k]) == es[i + 1].path[k]);
        }
        lemma_parse_entries_of_encoding(b, c2, es.skip(1), off, payload);

        assert(p + 2 + 16 * n == c2);
        assert(spec_parse_entries(b, c, off) == Some(
            seq![(e0.path, gather(payload, e0.pointers))] + entries_contents(
                es.skip(1),
                payload,
            ),
        ));
        assert(seq![(e0.path, gather(payload, e0.pointers))] + entries_contents(
            es.skip(1),
            payload,
        ) =~= entries_contents(es, payload)) by {
            assert(forall|i: int|
                0 <= i < es.skip(1).len() ==> #[trigger] es.skip(1)[i] == es[i + 1]);
        }
    }
}

/// Round trip of a representable archive: serializing it and parsing the
/// bytes back yields, for every entry in order, its path and the content
/// its pointers gather from the payload.
pub proof fn lemma_archive_round_trip(a: ArchiveModel)
    requires
        paths_zero_free(a.entries),
        archive_fits(a),
        entries_in_payload(a.entries, a.payload.len() as int),
    ensures
        spec_parse_archive(spec_archive_bytes(a)) == Some(
            entries_contents(a.entries, a.payload),
        ),
{
    let b = spec_archive_bytes(a);
    let off = spec_payload_offset(a);
    lemma_offset_field_correct(a);
    assert(b.len() >= 10);
    assert(counts_fit(a.entries));
    lemma_parse_entries_of_encoding(b, 10, a.entries, off, a.payload);
    assert(spec_parse_archive(b) == spec_parse_entries(b, 10, off));
}

/// The full round-trip law: an archive the packer built from source files
/// (with zero-free paths) serializes and parses back to exactly the
/// original relative paths and file contents, in input order.
pub proof fn lemma_pack_round_trip(fs: Seq<PackedFile>, a: ArchiveModel)
    requires
        pack_ok_archive(fs, a),
        paths_zero_free(a.entries),
        archive_fits(a),
    ensures
        spec_parse_archive(spec_archive_bytes(a)) == Some(
            Seq::new(fs.len(), |i: int| (fs[i].path@, fs[i].bytes@)),
        ),
{
    assert(entries_in_payload(a.entries, a.payload.len() as int));
    lemma_archive_round_trip(a);
    assert(entries_contents(a.entries, a.payload) =~= Seq::new(
        fs.len(),
        |i: int| (fs[i].path@, fs[i].bytes@),
    ));
}

} // verus!
