//! The archive data model: byte pointers, source files, archived entries,
//! and the packed archive, together with the spec functions that say what a
//! pointer list means against a payload.

use vstd::prelude::*;

verus! {

/// An inclusive `(start, end)` byte range into the archive's flat payload,
/// relative to the start of the payload.
#[derive(Debug, Clone, Copy, PartialEq, Eq, Structural)]
pub struct PackedOffset(pub u64, pub u64);

/// A source file loaded for packing: its relative path (as raw bytes of the
/// path string), its content, and the packer's per-file bookkeeping.
#[derive(Debug)]
pub struct PackedFile {
    /// Byte ranges of this file's chunks in the payload, in the order the
    /// chunks were written.
    pub pointers: Vec<PackedOffset>,
    /// The path relative to the packed root, as the raw bytes of its string
    /// form.  The archive format forbids a zero byte inside a path.
    pub path: Vec<u8>,
    /// How many of this file's bytes the packer has consumed so far.
    pub byte_done: u64,
    /// The file's total size in bytes; always equal to `bytes.len()`.
    pub byte_size: u64,
    /// The file's raw content.
    pub bytes: Vec<u8>,
    /// Whether the packer has consumed the whole file.
    pub done: bool,
    /// The chunk size used for this file when interleaving.
    pub slice: u64,
}

/// One finished entry of the archive header: a relative path and the ordered
/// byte ranges that hold the file's chunks.
#[derive(Debug)]
pub struct ArchivedFile {
    pub pointers: Vec<PackedOffset>,
    pub path: Vec<u8>,
}

/// A packed archive: the header entries and the flat interleaved payload.
#[derive(Debug)]
pub struct PackedArchive {
    pub header: Vec<ArchivedFile>,
    pub bytes: Vec<u8>,
}

/// The mathematical model of one header entry.
pub struct EntryModel {
    pub path: Seq<u8>,
    pub pointers: Seq<PackedOffset>,
}

/// The mathematical model of an archive.
pub struct ArchiveModel {
    pub entries: Seq<EntryModel>,
    pub payload: Seq<u8>,
}

impl View for ArchivedFile {
    type V = EntryModel;

    open spec fn view(&self) -> EntryModel {
        EntryModel { path: self.path@, pointers: self.pointers@ }
    }
}

impl View for PackedArchive {
    type V = ArchiveModel;

    open spec fn view(&self) -> ArchiveModel {
        ArchiveModel {
            entries: Seq::new(self.header@.len(), |i: int| self.header@[i]@),
            payload: self.bytes@,
        }
    }
}

/// The number of payload bytes an inclusive pointer spans.
pub open spec fn ptr_len(p: PackedOffset) -> int {
    p.1 - p.0 + 1
}

/// The total number of payload bytes a pointer list spans.
pub open spec fn ptrs_total_len(ps: Seq<PackedOffset>) -> int
    decreases ps.len(),
{
    if ps.len() == 0 {
        0
    } else {
        ptr_len(ps[0]) + ptrs_total_len(ps.skip(1))
    }
}

/// Every pointer is a well-formed inclusive range that lies inside a payload
/// of `payload_len` bytes.
pub open spec fn ptrs_in_payload(ps: Seq<PackedOffset>, payload_len: int) -> bool {
    forall|k: int| 0 <= k < ps.len() ==> #[trigger] ps[k].0 <= ps[k].1 < payload_len
}

/// The bytes a pointer list denotes: the payload ranges, concatenated in
/// pointer order.
pub open spec fn gather(payload: Seq<u8>, ps: Seq<PackedOffset>) -> Seq<u8>
    recommends
        ptrs_in_payload(ps, payload.len() as int),
    decreases ps.len(),
{
    if ps.len() == 0 {
        Seq::empty()
    } else {
        payload.subrange(ps[0].0 as int, ps[0].1 + 1) + gather(payload, ps.skip(1))
    }
}

/// Two inclusive ranges share no payload byte.
pub open spec fn ptrs_disjoint(p: PackedOffset, q: PackedOffset) -> bool {
    p.1 < q.0 || q.1 < p.0
}

/// The sequence of pointer lists a vector of pointer vectors denotes.
pub open spec fn lists_view(ls: Seq<Vec<PackedOffset>>) -> Seq<Seq<PackedOffset>> {
    Seq::new(ls.len(), |i: int| ls[i]@)
}

/// Every pointer of every list is a well-formed range ending below `bound`.
pub open spec fn all_ptrs_below(ls: Seq<Seq<PackedOffset>>, bound: int) -> bool {
    forall|i: int, k: int|
        0 <= i < ls.len() && 0 <= k < ls[i].len() ==> #[trigger] ls[i][k].0 <= ls[i][k].1 < bound
}

/// No two pointers of the lists (of the same list or of different lists)
/// share a payload byte.
pub open spec fn all_ptrs_disjoint(ls: Seq<Seq<PackedOffset>>) -> bool {
    forall|i1: int, k1: int, i2: int, k2: int|
        0 <= i1 < ls.len() && 0 <= k1 < ls[i1].len() && 0 <= i2 < ls.len() && 0 <= k2
            < ls[i2].len() && (i1 != i2 || k1 != k2) ==> ptrs_disjoint(
            #[trigger] ls[i1][k1],
            #[trigger] ls[i2][k2],
        )
}

/// No two pointers of any two header entries overlap: each payload byte
/// belongs to at most one chunk.
pub open spec fn entries_disjoint(entries: Seq<EntryModel>) -> bool {
    all_ptrs_disjoint(Seq::new(entries.len(), |i: int| entries[i].pointers))
}

/// Some pointer of the lists covers payload position `pos`.
pub open spec fn lists_cover(ls: Seq<Seq<PackedOffset>>, pos: int) -> bool {
    exists|i: int, k: int|
        0 <= i < ls.len() && 0 <= k < ls[i].len() && ((#[trigger] ls[i][k]).0 <= pos <= ls[i][k].1)
}

/// Some pointer of some header entry covers payload position `pos`.
pub open spec fn entries_cover(entries: Seq<EntryModel>, pos: int) -> bool {
    exists|i: int, k: int|
        0 <= i < entries.len() && 0 <= k < entries[i].pointers.len() && ((
        #[trigger] entries[i].pointers[k]).0 <= pos <= entries[i].pointers[k].1)
}

/// Appending a pointer appends its payload range to what the list gathers.
pub proof fn lemma_gather_push(payload: Seq<u8>, ps: Seq<PackedOffset>, p: PackedOffset)
    ensures
        gather(payload, ps.push(p)) == gather(payload, ps) + payload.subrange(
            p.0 as int,
            p.1 + 1,
        ),
    decreases ps.len(),
{
    let pr = payload.subrange(p.0 as int, p.1 + 1);
    if ps.len() == 0 {
        assert(ps.push(p).skip(1) =~= Seq::<PackedOffset>::empty());
        assert(ps.push(p)[0] == p);
        assert(gather(payload, ps.push(p)) == pr + gather(payload, Seq::<PackedOffset>::empty()));
        assert(pr + Seq::<u8>::empty() =~= Seq::<u8>::empty() + pr);
    } else {
        let head = payload.subrange(ps[0].0 as int, ps[0].1 + 1);
        let tail = ps.skip(1);
        assert(ps.push(p)[0] == ps[0]);
        assert(ps.push(p).skip(1) =~= tail.push(p));
        lemma_gather_push(payload, tail, p);
        assert(gather(payload, ps.push(p)) == head + (gather(payload, tail) + pr));
        assert(gather(payload, ps) == head + gather(payload, tail));
        assert(head + (gather(payload, tail) + pr) =~= (head + gather(payload, tail)) + pr);
    }
}

/// Appending a pointer adds its span to the total length.
pub proof fn lemma_ptrs_total_len_push(ps: Seq<PackedOffset>, p: PackedOffset)
    ensures
        ptrs_total_len(ps.push(p)) == ptrs_total_len(ps) + ptr_len(p),
    decreases ps.len(),
{
    if ps.len() == 0 {
        assert(ps.push(p).skip(1) =~= Seq::<PackedOffset>::empty());
        assert(ps.push(p)[0] == p);
        assert(ptrs_total_len(Seq::<PackedOffset>::empty()) == 0);
        assert(ptrs_total_len(ps.push(p)) == ptr_len(p) + ptrs_total_len(
            Seq::<PackedOffset>::empty(),
        ));
    } else {
        assert(ps.push(p)[0] == ps[0]);
        assert(ps.push(p).skip(1) =~= ps.skip(1).push(p));
        lemma_ptrs_total_len_push(ps.skip(1), p);
        assert(ptrs_total_len(ps.push(p)) == ptr_len(ps[0]) + ptrs_total_len(ps.skip(1).push(p)));
        assert(ptrs_total_len(ps) == ptr_len(ps[0]) + ptrs_total_len(ps.skip(1)));
    }
}

/// Growing the payload on the right does not change what pointers inside the
/// old payload gather.
pub proof fn lemma_gather_extend(payload: Seq<u8>, ext: Seq<u8>, ps: Seq<PackedOffset>)
    requires
        ptrs_in_payload(ps, payload.len() as int),
    ensures
        gather(payload + ext, ps) == gather(payload, ps),
    decreases ps.len(),
{
    if ps.len() > 0 {
        assert((payload + ext).subrange(ps[0].0 as int, ps[0].1 + 1) =~= payload.subrange(
            ps[0].0 as int,
            ps[0].1 + 1,
        ));
        lemma_gather_extend(payload, ext, ps.skip(1));
    }
}

} // verus!
