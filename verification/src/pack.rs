//! The interleaving packer: round-robins over all pending files, slicing
//! each into chunks that are appended to one flat payload, and records the
//! byte range every chunk occupies.

use crate::errors::ArchiveError;
use crate::types::{
    all_ptrs_below, all_ptrs_disjoint, entries_cover, entries_disjoint, gather,
    lemma_gather_extend, lemma_gather_push, lemma_ptrs_total_len_push, lists_cover, lists_view,
    ptr_len, ptrs_disjoint, ptrs_in_payload, ptrs_total_len, ArchiveModel, ArchivedFile,
    PackedArchive, PackedFile, PackedOffset,
};
use vstd::arithmetic::div_mod::lemma_fundamental_div_mod_converse;
use vstd::pervasive::VecAdditionalExecFns;
use vstd::prelude::*;

verus! {

/// How many chunks a file of `size` bytes needs at chunk size `slice`
/// (both at least 1): `ceil(size / slice)`.
pub open spec fn chunks_needed(size: int, slice: int) -> int
    recommends
        size >= 1,
        slice >= 1,
{
    (size - 1) / slice + 1
}

/// A file as the packer expects it: not yet touched, with a consistent size.
pub open spec fn file_fresh(f: PackedFile) -> bool {
    &&& f.byte_done == 0
    &&& f.pointers@.len() == 0
    &&& !f.done
    &&& f.byte_size == f.bytes@.len()
}

/// A file the packer can represent: nonzero size, nonzero chunk size, and a
/// chunk count the header's one-byte pointer-count field can hold.
pub open spec fn file_packable(f: PackedFile) -> bool {
    &&& f.byte_size >= 1
    &&& f.slice >= 1
    &&& chunks_needed(f.byte_size as int, f.slice as int) <= 255
}

/// The total size in bytes of a sequence of source files.
pub open spec fn sum_sizes(files: Seq<PackedFile>) -> int
    decreases files.len(),
{
    if files.len() == 0 {
        0
    } else {
        files[0].byte_size + sum_sizes(files.skip(1))
    }
}

/// The sum of a sequence of byte counts.
pub open spec fn sum_u64(s: Seq<u64>) -> int
    decreases s.len(),
{
    if s.len() == 0 {
        0
    } else {
        s[0] + sum_u64(s.skip(1))
    }
}

/// How many entries of a boolean sequence are set.
pub open spec fn count_true(s: Seq<bool>) -> int
    decreases s.len(),
{
    if s.len() == 0 {
        0
    } else {
        (if s[0] {
            1int
        } else {
            0int
        }) + count_true(s.skip(1))
    }
}

proof fn lemma_sum_u64_update(s: Seq<u64>, i: int, v: u64)
    requires
        0 <= i < s.len(),
    ensures
        sum_u64(s.update(i, v)) == sum_u64(s) - s[i] + v,
    decreases s.len(),
{
    if i == 0 {
        assert(s.update(0, v).skip(1) =~= s.skip(1));
    } else {
        assert(s.update(i, v).skip(1) =~= s.skip(1).update(i - 1, v));
        lemma_sum_u64_update(s.skip(1), i - 1, v);
    }
}

proof fn lemma_count_true_update(s: Seq<bool>, i: int)
    requires
        0 <= i < s.len(),
        !s[i],
    ensures
        count_true(s.update(i, true)) == count_true(s) + 1,
    decreases s.len(),
{
    if i == 0 {
        assert(s.update(0, true).skip(1) =~= s.skip(1));
    } else {
        assert(s.update(i, true).skip(1) =~= s.skip(1).update(i - 1, true));
        lemma_count_true_update(s.skip(1), i - 1);
    }
}

proof fn lemma_count_true_none(s: Seq<bool>)
    requires
        forall|i: int| 0 <= i < s.len() ==> !s[i],
    ensures
        count_true(s) == 0,
    decreases s.len(),
{
    if s.len() > 0 {
        assert(forall|i: int| 0 <= i < s.skip(1).len() ==> #[trigger] s.skip(1)[i] == s[i + 1]);
        lemma_count_true_none(s.skip(1));
    }
}

proof fn lemma_count_true_le(s: Seq<bool>)
    ensures
        0 <= count_true(s) <= s.len(),
    decreases s.len(),
{
    if s.len() > 0 {
        lemma_count_true_le(s.skip(1));
    }
}

proof fn lemma_count_true_full(s: Seq<bool>)
    requires
        count_true(s) == s.len(),
    ensures
        forall|i: int| 0 <= i < s.len() ==> s[i],
    decreases s.len(),
{
    if s.len() > 0 {
        lemma_count_true_le(s.skip(1));
        assert(s[0]);
        lemma_count_true_full(s.skip(1));
        assert forall|i: int| 0 <= i < s.len() implies s[i] by {
            if i >= 1 {
                assert(s.skip(1)[i - 1]);
            }
        }
    }
}

proof fn lemma_count_true_all(s: Seq<bool>)
    requires
        forall|i: int| 0 <= i < s.len() ==> s[i],
    ensures
        count_true(s) == s.len(),
    decreases s.len(),
{
    if s.len() > 0 {
        assert(forall|i: int| 0 <= i < s.skip(1).len() ==> #[trigger] s.skip(1)[i] == s[i + 1]);
        lemma_count_true_all(s.skip(1));
    }
}

/// With every summand bounded by the matching file's size, the sum of the
/// byte counts is bounded by the total size.
proof fn lemma_sum_u64_le_sizes(bd: Seq<u64>, files: Seq<PackedFile>)
    requires
        bd.len() == files.len(),
        forall|i: int| 0 <= i < bd.len() ==> #[trigger] bd[i] <= files[i].byte_size,
    ensures
        sum_u64(bd) <= sum_sizes(files),
    decreases bd.len(),
{
    if bd.len() > 0 {
        assert(forall|i: int|
            0 <= i < bd.skip(1).len() ==> #[trigger] bd.skip(1)[i] == bd[i + 1] && files.skip(1)[i]
                == files[i + 1]);
        lemma_sum_u64_le_sizes(bd.skip(1), files.skip(1));
    }
}

/// A sequence of zero byte counts sums to zero.
proof fn lemma_sum_u64_zeros(s: Seq<u64>)
    requires
        forall|i: int| 0 <= i < s.len() ==> #[trigger] s[i] == 0,
    ensures
        sum_u64(s) == 0,
    decreases s.len(),
{
    if s.len() > 0 {
        assert(forall|i: int| 0 <= i < s.skip(1).len() ==> #[trigger] s.skip(1)[i] == s[i + 1]);
        lemma_sum_u64_zeros(s.skip(1));
    }
}

/// When every byte count equals the matching file's size, the sum is the
/// total size.
proof fn lemma_sum_u64_eq_sizes(bd: Seq<u64>, files: Seq<PackedFile>)
    requires
        bd.len() == files.len(),
        forall|i: int| 0 <= i < bd.len() ==> #[trigger] bd[i] == files[i].byte_size,
    ensures
        sum_u64(bd) == sum_sizes(files),
    decreases bd.len(),
{
    if bd.len() > 0 {
        assert(forall|i: int|
            0 <= i < bd.skip(1).len() ==> #[trigger] bd.skip(1)[i] == bd[i + 1] && files.skip(1)[i]
                == files[i + 1]);
        lemma_sum_u64_eq_sizes(bd.skip(1), files.skip(1));
    }
}

/// The compression hook applied to each file's bytes before slicing.  It
/// currently performs no transformation: the bytes pass through unchanged.
pub fn zstd_file(bytes: &mut Vec<u8>)
    ensures
        final(bytes)@ == old(bytes)@,
{
}

/// A verified copy of a byte vector.
fn copy_bytes(v: &Vec<u8>) -> (r: Vec<u8>)
    ensures
        r@ == v@,
{
    let mut r: Vec<u8> = Vec::new();
    let mut i: usize = 0;
    while i < v.len()
        invariant
            i <= v.len(),
            r@ == v@.subrange(0, i as int),
        decreases v.len() - i,
    {
        r.push(v[i]);
        assert(r@ =~= v@.subrange(0, i + 1));
        i = i + 1;
    }
    assert(r@ =~= v@);
    r
}

/// A verified copy of a pointer list.
fn copy_ptrs(v: &Vec<PackedOffset>) -> (r: Vec<PackedOffset>)
    ensures
        r@ == v@,
{
    let mut r: Vec<PackedOffset> = Vec::new();
    let mut i: usize = 0;
    while i < v.len()
        invariant
            i <= v.len(),
            r@ == v@.subrange(0, i as int),
        decreases v.len() - i,
    {
        r.push(v[i]);
        assert(r@ =~= v@.subrange(0, i + 1));
        i = i + 1;
    }
    assert(r@ =~= v@);
    r
}

/// Appends the whole of `src` to `dst`.
pub(crate) fn append_bytes(dst: &mut Vec<u8>, src: &Vec<u8>)
    ensures
        final(dst)@ == old(dst)@ + src@,
{
    let count = src.len();
    append_range(dst, src, 0, count);
    assert(old(dst)@ + src@.subrange(0, count as int) =~= old(dst)@ + src@);
}

/// Appends `src[start .. start + count]` to `dst`.
pub(crate) fn append_range(dst: &mut Vec<u8>, src: &Vec<u8>, start: usize, count: usize)
    requires
        start + count <= src.len(),
    ensures
        final(dst)@ == old(dst)@ + src@.subrange(start as int, start as int + count as int),
{
    let mut i: usize = 0;
    while i < count
        invariant
            i <= count,
            start + count <= src.len(),
            dst@ == old(dst)@ + src@.subrange(start as int, start as int + i as int),
        decreases count - i,
    {
        dst.push(src[start + i]);
        assert(dst@ =~= old(dst)@ + src@.subrange(start as int, start as int + i as int + 1));
        i = i + 1;
    }
}

/// The number of chunks the round-robin schedule gives a file.
pub open spec fn file_chunks(f: PackedFile) -> int {
    chunks_needed(f.byte_size as int, f.slice as int)
}

/// The length of a file's chunk in round `k` (rounds numbered from 0): a
/// full slice in every round but the file's last, where the remainder is
/// taken.
pub open spec fn chunk_len(size: int, slice: int, k: int) -> int
    recommends
        1 <= size,
        1 <= slice,
        0 <= k < chunks_needed(size, slice),
{
    if k < chunks_needed(size, slice) - 1 {
        slice
    } else {
        size - (chunks_needed(size, slice) - 1) * slice
    }
}

/// What file `i` writes during round `k`: its chunk for that round, or
/// nothing once the file is done.
pub open spec fn round_contrib(fs: Seq<PackedFile>, i: int, k: int) -> int {
    if k < file_chunks(fs[i]) {
        chunk_len(fs[i].byte_size as int, fs[i].slice as int, k)
    } else {
        0
    }
}

/// The bytes the files before `i` write during round `k`.
pub open spec fn row_prefix(fs: Seq<PackedFile>, i: int, k: int) -> int
    decreases i,
{
    if i <= 0 {
        0
    } else {
        row_prefix(fs, i - 1, k) + round_contrib(fs, i - 1, k)
    }
}

/// The payload position at which round `k` begins: everything every file
/// wrote during the earlier rounds.
pub open spec fn round_base(fs: Seq<PackedFile>, k: int) -> int
    decreases k,
{
    if k <= 0 {
        0
    } else {
        round_base(fs, k - 1) + row_prefix(fs, fs.len() as int, k - 1)
    }
}

/// Arithmetic of one file across the rounds: it is pending exactly in the
/// rounds below its chunk count, a full slice always fits before its last
/// round, and its last round takes what remains, which is between one byte
/// and a slice.
proof fn lemma_round_chunk(size: int, slice: int, r: int)
    requires
        1 <= size,
        1 <= slice,
        0 <= r,
    ensures
        r < chunks_needed(size, slice) <==> r * slice < size,
        r < chunks_needed(size, slice) - 1 ==> slice < size - r * slice,
        r == chunks_needed(size, slice) - 1 ==> 0 < size - r * slice <= slice,
{
    let q = (size - 1) / slice;
    let rem = (size - 1) % slice;
    vstd::arithmetic::div_mod::lemma_fundamental_div_mod(size - 1, slice);
    vstd::arithmetic::div_mod::lemma_mod_bound(size - 1, slice);
    vstd::arithmetic::div_mod::lemma_div_pos_is_pos(size - 1, slice);
    assert(size - 1 == slice * q + rem);
    if r <= q {
        assert(r * slice <= q * slice) by (nonlinear_arith)
            requires
                0 <= r <= q,
                1 <= slice,
        ;
    } else {
        assert((q + 1) * slice <= r * slice) by (nonlinear_arith)
            requires
                q + 1 <= r,
                1 <= slice,
        ;
        assert((q + 1) * slice == q * slice + slice) by (nonlinear_arith);
    }
    if r < q {
        assert((r + 1) * slice <= q * slice) by (nonlinear_arith)
            requires
                r + 1 <= q,
                1 <= slice,
        ;
        assert((r + 1) * slice == r * slice + slice) by (nonlinear_arith);
    }
}

/// Interleaving fairness for small files: a file no larger than its chunk
/// size is consumed whole in its first round, so the packer records exactly
/// one pointer for it, while larger files span as many rounds as they need
/// chunks.
pub proof fn lemma_single_round_completion(size: int, slice: int)
    requires
        1 <= size <= slice,
    ensures
        chunks_needed(size, slice) == 1,
{
    assert((size - 1) / slice == 0) by (nonlinear_arith)
        requires
            0 <= size - 1 < slice,
    ;
}

/// A header entry accounts exactly for one source file: one pointer per
/// chunk, spanning the file's size in total, each range inside the payload,
/// and the ranges concatenating (in order) to the file's bytes.  The chunks
/// have the shape the round-robin schedule gives them: none spans more than
/// the file's chunk size, every chunk but the last spans exactly that, and
/// the pointers sit at strictly increasing payload positions.
pub open spec fn entry_matches_file(
    payload: Seq<u8>,
    ptrs: Seq<PackedOffset>,
    f: PackedFile,
) -> bool {
    &&& ptrs.len() == chunks_needed(f.byte_size as int, f.slice as int)
    &&& ptrs_total_len(ptrs) == f.byte_size
    &&& ptrs_in_payload(ptrs, payload.len() as int)
    &&& gather(payload, ptrs) == f.bytes@
    &&& forall|k: int| 0 <= k < ptrs.len() ==> ptr_len(#[trigger] ptrs[k]) <= f.slice
    &&& forall|k: int| 0 <= k && k + 1 < ptrs.len() ==> ptr_len(#[trigger] ptrs[k]) == f.slice
    &&& forall|k: int| 0 <= k && k + 1 < ptrs.len() ==> (#[trigger] ptrs[k]).1 < ptrs[k + 1].0
}

/// Some file is a degenerate input: zero size or zero chunk size.
pub open spec fn has_domain_fault(fs: Seq<PackedFile>) -> bool {
    exists|i: int| 0 <= i < fs.len() && ((#[trigger] fs[i]).byte_size == 0 || fs[i].slice == 0)
}

/// Some file needs more chunks than the pointer-count field can record.
pub open spec fn has_capacity_fault(fs: Seq<PackedFile>) -> bool {
    exists|i: int|
        0 <= i < fs.len() && fs[i].byte_size >= 1 && fs[i].slice >= 1 && chunks_needed(
            (#[trigger] fs[i]).byte_size as int,
            fs[i].slice as int,
        ) > 255
}

/// What a successful pack promises of the archive, relative to the input
/// files: one entry per file in input order, with the file's path, and
/// pointers that account exactly for the file's bytes; no two pointers of
/// any entries overlap, yet together they cover every payload position, so
/// each payload byte belongs to exactly one chunk; the payload is exactly
/// as long as all the files together; and every pointer is exactly where
/// the round-robin schedule places that file's chunk for that round, which
/// fixes the interleaved layout of the payload completely.
pub open spec fn pack_ok_archive(fs: Seq<PackedFile>, a: ArchiveModel) -> bool {
    &&& a.entries.len() == fs.len()
    &&& forall|i: int| 0 <= i < fs.len() ==> (#[trigger] a.entries[i]).path == fs[i].path@
    &&& forall|i: int|
        0 <= i < fs.len() ==> entry_matches_file(
            a.payload,
            (#[trigger] a.entries[i]).pointers,
            fs[i],
        )
    &&& entries_disjoint(a.entries)
    &&& a.payload.len() == sum_sizes(fs)
    &&& forall|i: int, k: int|
        0 <= i < fs.len() && 0 <= k < a.entries[i].pointers.len() ==> ((#[trigger] a.entries[i].pointers[k]).0 as int
            == round_base(fs, k) + row_prefix(fs, i, k) && ptr_len(a.entries[i].pointers[k])
            == chunk_len(fs[i].byte_size as int, fs[i].slice as int, k))
    &&& forall|pos: int| 0 <= pos < a.payload.len() ==> #[trigger] entries_cover(a.entries, pos)
}

/// No two source files share a relative path: the header maps each path to
/// one entry.
pub open spec fn paths_distinct(fs: Seq<PackedFile>) -> bool {
    forall|i: int, j: int|
        0 <= i < j < fs.len() ==> (#[trigger] fs[i].path@) != (#[trigger] fs[j].path@)
}

/// A source file frozen by the packer: content untouched, marked done, with
/// the pointer list the packer recorded for it.
pub open spec fn file_frozen(f0: PackedFile, f1: PackedFile, ptrs: Seq<PackedOffset>) -> bool {
    &&& f1.path@ == f0.path@
    &&& f1.bytes@ == f0.bytes@
    &&& f1.byte_size == f0.byte_size
    &&& f1.slice == f0.slice
    &&& f1.done
    &&& f1.byte_done == f0.byte_size
    &&& f1.pointers@ == ptrs
}

/// The packer's round-to-round state invariant, over the immutable source
/// files `fs`, the per-file consumed-byte counters `bd`, completion flags
/// `dn`, recorded pointer lists `ls`, and the payload written so far.
pub open spec fn pack_inv(
    fs: Seq<PackedFile>,
    bd: Seq<u64>,
    dn: Seq<bool>,
    ls: Seq<Seq<PackedOffset>>,
    payload: Seq<u8>,
    offset: u64,
) -> bool {
    &&& bd.len() == fs.len()
    &&& dn.len() == fs.len()
    &&& ls.len() == fs.len()
    &&& offset as int == payload.len()
    &&& offset as int == sum_u64(bd)
    &&& forall|i: int| 0 <= i < fs.len() ==> #[trigger] bd[i] <= fs[i].byte_size
    &&& forall|i: int| 0 <= i < fs.len() ==> ((#[trigger] dn[i]) <==> bd[i] == fs[i].byte_size)
    &&& forall|i: int|
        0 <= i < fs.len() && !dn[i] ==> (#[trigger] ls[i]).len() * fs[i].slice == bd[i]
    &&& forall|i: int|
        0 <= i < fs.len() && dn[i] ==> (#[trigger] ls[i]).len() == chunks_needed(
            fs[i].byte_size as int,
            fs[i].slice as int,
        )
    &&& forall|i: int| 0 <= i < fs.len() ==> ptrs_total_len(#[trigger] ls[i]) == bd[i]
    &&& forall|i: int|
        0 <= i < fs.len() ==> gather(payload, #[trigger] ls[i]) == fs[i].bytes@.subrange(
            0,
            bd[i] as int,
        )
    &&& all_ptrs_below(ls, offset as int)
    &&& all_ptrs_disjoint(ls)
    &&& forall|i: int, k: int|
        0 <= i < fs.len() && 0 <= k < ls[i].len() ==> ptr_len(#[trigger] ls[i][k]) <= fs[i].slice
    &&& forall|i: int, k: int|
        0 <= i < fs.len() && 0 <= k < ls[i].len() && (k + 1 < ls[i].len() || !dn[i])
            ==> ptr_len(#[trigger] ls[i][k]) == fs[i].slice
    &&& forall|i: int, k: int|
        0 <= i < fs.len() && 0 <= k && k + 1 < ls[i].len() ==> (#[trigger] ls[i][k]).1 < ls[i][k
            + 1].0
    &&& forall|pos: int| 0 <= pos < payload.len() ==> #[trigger] lists_cover(ls, pos)
}

/// The interleaving packer.  Round-robins over the not-yet-done files: each
/// round takes from every pending file its next chunk of at most `slice`
/// bytes, appends it to the flat payload, and records the inclusive byte
/// range it occupies.  Files are moved into the header (in input order) once
/// fully consumed.
///
/// Fails with a domain error when some file has zero size or zero chunk
/// size, and with a capacity error when some file would need more than 255
/// chunks; in both cases the input files are left untouched.
#[verifier::rlimit(100)]
pub fn compress_archive(packed_file: &mut Vec<PackedFile>) -> (r: Result<
    PackedArchive,
    ArchiveError,
>)
    requires
        forall|i: int|
            0 <= i < old(packed_file)@.len() ==> file_fresh(#[trigger] old(packed_file)@[i]),
        paths_distinct(old(packed_file)@),
        sum_sizes(old(packed_file)@) <= u64::MAX,
    ensures
        ({
            let fs = old(packed_file)@;
            match r {
                Ok(a) => {
                    &&& !has_domain_fault(fs)
                    &&& !has_capacity_fault(fs)
                    &&& pack_ok_archive(fs, a@)
                    &&& final(packed_file)@.len() == fs.len()
                    &&& forall|i: int|
                        0 <= i < fs.len() ==> file_frozen(
                            fs[i],
                            #[trigger] final(packed_file)@[i],
                            a@.entries[i].pointers,
                        )
                },
                Err(e) => {
                    &&& *final(packed_file) == *old(packed_file)
                    &&& (e is DomainError <==> has_domain_fault(fs))
                    &&& (e is CapacityError <==> !has_domain_fault(fs) && has_capacity_fault(fs))
                    &&& (e is DomainError || e is CapacityError)
                },
            }
        }),
{
    let ghost fs = packed_file@;
    let n = packed_file.len();

    // Domain check: every file must have a nonzero size and chunk size.
    let mut i: usize = 0;
    while i < n
        invariant
            n == fs.len(),
            packed_file@ == fs,
            i <= n,
            forall|t: int| 0 <= t < i ==> (#[trigger] fs[t]).byte_size >= 1 && fs[t].slice >= 1,
        decreases n - i,
    {
        if packed_file[i].byte_size == 0 || packed_file[i].slice == 0 {
            return Err(ArchiveError::DomainError);
        }
        i = i + 1;
    }

    // Capacity check: every file's chunk count must fit the header's
    // one-byte pointer-count field.
    let mut i: usize = 0;
    while i < n
        invariant
            n == fs.len(),
            packed_file@ == fs,
            i <= n,
            forall|t: int| 0 <= t < n ==> (#[trigger] fs[t]).byte_size >= 1 && fs[t].slice >= 1,
            forall|t: int| 0 <= t < i ==> file_packable(#[trigger] fs[t]),
        decreases n - i,
    {
        let size = packed_file[i].byte_size;
        let slice = packed_file[i].slice;
        if (size - 1) / slice > 254 {
            return Err(ArchiveError::CapacityError);
        }
        i = i + 1;
    }

    // Per-file bookkeeping: consumed bytes, completion flags, pointer lists.
    let mut byte_done: Vec<u64> = Vec::new();
    let mut donev: Vec<bool> = Vec::new();
    let mut ptrs: Vec<Vec<PackedOffset>> = Vec::new();
    let mut i: usize = 0;
    while i < n
        invariant
            byte_done@.len() == i,
            donev@.len() == i,
            ptrs@.len() == i,
            i <= n,
            forall|t: int| 0 <= t < i ==> #[trigger] byte_done@[t] == 0,
            forall|t: int| 0 <= t < i ==> !(#[trigger] donev@[t]),
            forall|t: int| 0 <= t < i ==> (#[trigger] ptrs@[t])@.len() == 0,
        decreases n - i,
    {
        byte_done.push(0);
        donev.push(false);
        ptrs.push(Vec::new());
        i = i + 1;
    }

    let mut payload: Vec<u8> = Vec::new();
    let mut offset: u64 = 0;
    let mut done_count: usize = 0;

    proof {
        lemma_sum_u64_zeros(byte_done@);
        lemma_count_true_none(donev@);
        assert forall|t: int| 0 <= t < n implies gather(payload@, #[trigger] lists_view(ptrs@)[t])
            == fs[t].bytes@.subrange(0, byte_done@[t] as int) by {
            assert(lists_view(ptrs@)[t] == ptrs@[t]@);
            assert(fs[t].bytes@.subrange(0, 0) =~= Seq::<u8>::empty());
        }
        assert forall|t: int| 0 <= t < n && !donev@[t] implies (#[trigger] lists_view(
            ptrs@,
        )[t]).len() * fs[t].slice == byte_done@[t] by {
            assert(lists_view(ptrs@)[t] == ptrs@[t]@);
        }
        assert forall|t: int| 0 <= t < n implies ptrs_total_len(#[trigger] lists_view(ptrs@)[t])
            == byte_done@[t] by {
            assert(lists_view(ptrs@)[t] == ptrs@[t]@);
        }
        assert forall|t: int| 0 <= t < n implies file_chunks(#[trigger] fs[t]) >= 1 by {
            vstd::arithmetic::div_mod::lemma_div_pos_is_pos(
                fs[t].byte_size - 1,
                fs[t].slice as int,
            );
        }
    }

    let ghost mut round: int = 0;
    while done_count < n
        invariant
            n == fs.len(),
            packed_file@ == fs,
            forall|t: int| 0 <= t < n ==> file_packable(#[trigger] fs[t]),
            forall|t: int| 0 <= t < n ==> (#[trigger] fs[t]).byte_size == fs[t].bytes@.len(),
            forall|t: int| 0 <= t < n ==> file_chunks(#[trigger] fs[t]) >= 1,
            sum_sizes(fs) <= u64::MAX,
            pack_inv(fs, byte_done@, donev@, lists_view(ptrs@), payload@, offset),
            done_count == count_true(donev@),
            0 <= round,
            forall|t: int|
                0 <= t < n ==> ((#[trigger] donev@[t]) <==> file_chunks(fs[t]) <= round),
            forall|t: int|
                0 <= t < n ==> (#[trigger] lists_view(ptrs@)[t]).len() == (if file_chunks(fs[t])
                    <= round {
                    file_chunks(fs[t])
                } else {
                    round
                }),
            offset as int == round_base(fs, round),
            forall|t: int, k: int|
                0 <= t < n && 0 <= k < lists_view(ptrs@)[t].len() ==> ((#[trigger] lists_view(
                    ptrs@,
                )[t][k]).0 as int == round_base(fs, k) + row_prefix(fs, t, k) && ptr_len(
                    lists_view(ptrs@)[t][k],
                ) == chunk_len(fs[t].byte_size as int, fs[t].slice as int, k)),
        decreases sum_sizes(fs) - offset,
    {
        let ghost offset0 = offset;
        let ghost donev0 = donev@;
        let mut j: usize = 0;
        while j < n
            invariant
                n == fs.len(),
                packed_file@ == fs,
                forall|t: int| 0 <= t < n ==> file_packable(#[trigger] fs[t]),
                forall|t: int| 0 <= t < n ==> (#[trigger] fs[t]).byte_size == fs[t].bytes@.len(),
                forall|t: int| 0 <= t < n ==> file_chunks(#[trigger] fs[t]) >= 1,
                sum_sizes(fs) <= u64::MAX,
                pack_inv(fs, byte_done@, donev@, lists_view(ptrs@), payload@, offset),
                done_count == count_true(donev@),
                j <= n,
                offset0 <= offset,
                donev0.len() == n,
                forall|t: int| j <= t < n ==> #[trigger] donev@[t] == donev0[t],
                (exists|t: int| 0 <= t < j && !donev0[t]) ==> offset > offset0,
                0 <= round,
                forall|t: int|
                    0 <= t < j ==> ((#[trigger] donev@[t]) <==> file_chunks(fs[t]) <= round + 1),
                forall|t: int|
                    j <= t < n ==> ((#[trigger] donev@[t]) <==> file_chunks(fs[t]) <= round),
                forall|t: int|
                    0 <= t < j ==> (#[trigger] lists_view(ptrs@)[t]).len() == (if file_chunks(
                        fs[t],
                    ) <= round + 1 {
                        file_chunks(fs[t])
                    } else {
                        round + 1
                    }),
                forall|t: int|
                    j <= t < n ==> (#[trigger] lists_view(ptrs@)[t]).len() == (if file_chunks(
                        fs[t],
                    ) <= round {
                        file_chunks(fs[t])
                    } else {
                        round
                    }),
                offset as int == round_base(fs, round) + row_prefix(fs, j as int, round),
                forall|t: int, k: int|
                    0 <= t < n && 0 <= k < lists_view(ptrs@)[t].len() ==> ((#[trigger] lists_view(
                        ptrs@,
                    )[t][k]).0 as int == round_base(fs, k) + row_prefix(fs, t, k) && ptr_len(
                        lists_view(ptrs@)[t][k],
                    ) == chunk_len(fs[t].byte_size as int, fs[t].slice as int, k)),
            decreases n - j,
        {
            if !donev[j] {
                let ghost ls0 = lists_view(ptrs@);
                let ghost bd0 = byte_done@;
                let ghost dn0i = donev@;
                let size = packed_file[j].byte_size;
                let slice = packed_file[j].slice;
                let bd = byte_done[j];
                assert(bd < size);
                let rem = size - bd;
                let n_take = if rem < slice {
                    rem
                } else {
                    slice
                };
                proof {
                    lemma_sum_u64_update(bd0, j as int, (bd + n_take) as u64);
                    assert forall|t: int| 0 <= t < n implies #[trigger] bd0.update(
                        j as int,
                        (bd + n_take) as u64,
                    )[t] <= fs[t].byte_size by {}
                    lemma_sum_u64_le_sizes(bd0.update(j as int, (bd + n_take) as u64), fs);
                }
                let new_ptr = PackedOffset(offset, offset + (n_take - 1));
                let mut ps = copy_ptrs(&ptrs[j]);
                ps.push(new_ptr);
                ptrs.set(j, ps);
                proof {
                    assert(lists_view(ptrs@) =~= ls0.update(j as int, ls0[j as int].push(new_ptr)));
                }
                let ghost payload0 = payload@;
                let blen = packed_file[j].bytes.len();
                assert(blen == size);
                assert((bd as usize) as int == bd as int && (n_take as usize) as int
                    == n_take as int);
                append_range(&mut payload, &packed_file[j].bytes, bd as usize, n_take as usize);
                offset = offset + n_take;
                byte_done.set(j, bd + n_take);
                let ghost finished = bd + n_take == size;
                if bd + n_take == size {
                    proof {
                        lemma_count_true_update(donev@, j as int);
                    }
                    donev.set(j, true);
                    proof {
                        lemma_count_true_le(donev@);
                    }
                    done_count = done_count + 1;
                }
                proof {
                    let ls1 = lists_view(ptrs@);
                    let chunk = fs[j as int].bytes@.subrange(bd as int, bd as int + n_take as int);
                    assert(payload@ == payload0 + chunk);
                    assert(ls1 =~= ls0.update(j as int, ls0[j as int].push(new_ptr)));

                    // The new pointer's range holds exactly the new chunk.
                    assert(payload@.subrange(new_ptr.0 as int, new_ptr.1 + 1) =~= chunk);

                    // Chunk counting for file j.
                    let oldlen = ls0[j as int].len() as int;
                    let sz = size as int;
                    let sl = slice as int;
                    let tk = n_take as int;
                    assert(oldlen * sl == bd);
                    if finished {
                        lemma_fundamental_div_mod_converse(sz - 1, sl, oldlen, tk - 1);
                        assert(ls1[j as int].len() == chunks_needed(sz, sl));
                    } else {
                        assert(tk == sl);
                        assert((oldlen + 1) * sl == oldlen * sl + sl) by (nonlinear_arith);
                        assert(ls1[j as int].len() * sl == bd + n_take);
                    }

                    // Placement: this chunk is the one the round-robin
                    // schedule assigns file j in the current round.
                    let cn = file_chunks(fs[j as int]);
                    assert(!dn0i[j as int]);
                    assert(cn > round);
                    assert(oldlen == round);
                    lemma_round_chunk(sz, sl, round);
                    assert(tk == chunk_len(sz, sl, round) && (finished <==> cn <= round + 1)) by {
                        assert(bd == round * sl);
                        if round < cn - 1 {
                            assert(sl < sz - round * sl);
                        } else {
                            assert(round == cn - 1);
                            assert(0 < sz - round * sl <= sl);
                        }
                    }
                    assert(round_contrib(fs, j as int, round) == tk);
                    assert(row_prefix(fs, j as int + 1, round) == row_prefix(fs, j as int, round)
                        + round_contrib(fs, j as int, round));
                    assert forall|t: int, k: int|
                        0 <= t < n && 0 <= k < ls1[t].len() implies ((#[trigger] ls1[t][k]).0 as int
                        == round_base(fs, k) + row_prefix(fs, t, k) && ptr_len(ls1[t][k])
                        == chunk_len(fs[t].byte_size as int, fs[t].slice as int, k)) by {
                        if t == j && k == oldlen {
                            assert(ls1[t][k] == new_ptr);
                            assert(new_ptr.0 as int == round_base(fs, round) + row_prefix(
                                fs,
                                j as int,
                                round,
                            ));
                        } else {
                            assert(ls1[t][k] == ls0[t][k]);
                        }
                    }

                    // Pointer total length for file j.
                    lemma_ptrs_total_len_push(ls0[j as int], new_ptr);

                    // Reconstruction for file j.
                    lemma_gather_extend(payload0, chunk, ls0[j as int]);
                    lemma_gather_push(payload@, ls0[j as int], new_ptr);
                    assert(gather(payload@, ls1[j as int]) == fs[j as int].bytes@.subrange(
                        0,
                        bd as int,
                    ) + chunk);
                    assert(fs[j as int].bytes@.subrange(0, bd as int) + chunk
                        =~= fs[j as int].bytes@.subrange(0, bd as int + tk));

                    // Reconstruction for every other file is unchanged by the
                    // payload growing on the right.
                    assert forall|t: int| 0 <= t < n && t != j implies gather(
                        payload@,
                        #[trigger] ls1[t],
                    ) == fs[t].bytes@.subrange(0, byte_done@[t] as int) by {
                        assert(ls1[t] == ls0[t]);
                        assert(ptrs_in_payload(ls0[t], payload0.len() as int));
                        lemma_gather_extend(payload0, chunk, ls0[t]);
                    }

                    // All pointers stay inside the payload.
                    assert forall|t: int, k: int|
                        0 <= t < ls1.len() && 0 <= k < ls1[t].len() implies #[trigger] ls1[t][k].0
                        <= ls1[t][k].1 < offset as int by {
                        if t == j && k == oldlen {
                        } else {
                            assert(ls1[t][k] == ls0[t][k]);
                        }
                    }

                    // Chunk shapes: the new chunk is at most one slice, it
                    // is exactly one slice unless it finishes the file, and
                    // it lies past the file's previous chunk.
                    let dn1 = donev@;
                    assert(ptr_len(new_ptr) == tk);
                    assert(!finished ==> tk == sl) by {
                        if rem < slice {
                            assert(bd + n_take == size);
                        }
                    }
                    assert forall|t: int, k: int|
                        0 <= t < n && 0 <= k < ls1[t].len() implies ptr_len(#[trigger] ls1[t][k])
                        <= fs[t].slice by {
                        if !(t == j && k == oldlen) {
                            assert(ls1[t][k] == ls0[t][k]);
                        }
                    }
                    assert forall|t: int, k: int|
                        0 <= t < n && 0 <= k < ls1[t].len() && (k + 1 < ls1[t].len() || !dn1[t])
                        implies ptr_len(#[trigger] ls1[t][k]) == fs[t].slice by {
                        if t == j {
                            if k == oldlen {
                                assert(!dn1[t]);
                                assert(!finished);
                            } else {
                                assert(ls1[t][k] == ls0[t][k]);
                                assert(!dn0i[j as int]);
                            }
                        } else {
                            assert(ls1[t][k] == ls0[t][k]);
                            assert(dn1[t] == dn0i[t]);
                        }
                    }
                    assert forall|t: int, k: int|
                        0 <= t < n && 0 <= k && k + 1 < ls1[t].len() implies (
                        #[trigger] ls1[t][k]).1 < ls1[t][k + 1].0 by {
                        if t == j && k + 1 == oldlen {
                            assert(ls1[t][k] == ls0[t][k]);
                            assert(ls1[t][k + 1] == new_ptr);
                            assert(ls0[t][k].1 < new_ptr.0);
                        } else {
                            assert(ls1[t][k] == ls0[t][k]);
                            assert(ls1[t][k + 1] == ls0[t][k + 1]);
                        }
                    }

                    // Coverage: old payload positions keep their covering
                    // pointer, and the new chunk covers the new positions.
                    assert forall|pos: int| 0 <= pos < payload@.len() implies #[trigger] lists_cover(
                        ls1,
                        pos,
                    ) by {
                        if pos < payload0.len() {
                            assert(lists_cover(ls0, pos));
                            let (wi, wk) = choose|wi: int, wk: int|
                                0 <= wi < ls0.len() && 0 <= wk < ls0[wi].len() && ((
                                #[trigger] ls0[wi][wk]).0 <= pos <= ls0[wi][wk].1);
                            assert(ls1[wi][wk] == ls0[wi][wk]);
                            assert(0 <= wi < ls1.len() && 0 <= wk < ls1[wi].len() && (ls1[wi][wk].0
                                <= pos <= ls1[wi][wk].1));
                        } else {
                            assert(ls1[j as int][oldlen] == new_ptr);
                            assert(0 <= j < ls1.len() && 0 <= oldlen < ls1[j as int].len() && (
                            ls1[j as int][oldlen].0 <= pos <= ls1[j as int][oldlen].1));
                        }
                    }

                    // The new pointer starts past every earlier end, so all
                    // pointers stay pairwise disjoint.
                    assert forall|i1: int, k1: int, i2: int, k2: int|
                        0 <= i1 < ls1.len() && 0 <= k1 < ls1[i1].len() && 0 <= i2 < ls1.len() && 0
                            <= k2 < ls1[i2].len() && (i1 != i2 || k1 != k2) implies ptrs_disjoint(
                        #[trigger] ls1[i1][k1],
                        #[trigger] ls1[i2][k2],
                    ) by {
                        if i1 == j && k1 == oldlen {
                            assert(ls1[i2][k2] == ls0[i2][k2]);
                            assert(ls0[i2][k2].1 < new_ptr.0);
                        } else if i2 == j && k2 == oldlen {
                            assert(ls1[i1][k1] == ls0[i1][k1]);
                            assert(ls0[i1][k1].1 < new_ptr.0);
                        } else {
                            assert(ls1[i1][k1] == ls0[i1][k1]);
                            assert(ls1[i2][k2] == ls0[i2][k2]);
                        }
                    }
                }
            } else {
                proof {
                    // A done file writes nothing this round.
                    assert(file_chunks(fs[j as int]) <= round);
                    assert(round_contrib(fs, j as int, round) == 0);
                    assert(row_prefix(fs, j as int + 1, round) == row_prefix(
                        fs,
                        j as int,
                        round,
                    ));
                }
            }
            j = j + 1;
        }
        proof {
            assert(exists|t: int| 0 <= t < n && !donev0[t]) by {
                if forall|t: int| 0 <= t < n ==> #[trigger] donev0[t] {
                    lemma_count_true_all(donev0);
                }
            }
            lemma_sum_u64_le_sizes(byte_done@, fs);
            // The cursor now sits where the next round begins.
            assert(round_base(fs, round + 1) == round_base(fs, round) + row_prefix(
                fs,
                n as int,
                round,
            ));
            round = round + 1;
        }
    }

    proof {
        lemma_count_true_le(donev@);
        lemma_count_true_full(donev@);
        assert forall|t: int| 0 <= t < n implies #[trigger] byte_done@[t] == fs[t].byte_size by {
            assert(donev@[t]);
        }
        lemma_sum_u64_eq_sizes(byte_done@, fs);
    }

    // Freeze every file and build the header, in input order.
    let ghost lsf = lists_view(ptrs@);
    let mut header: Vec<ArchivedFile> = Vec::new();
    let mut i: usize = 0;
    while i < n
        invariant
            n == fs.len(),
            packed_file@.len() == n,
            ptrs@.len() == n,
            lsf == lists_view(ptrs@),
            header@.len() == i,
            i <= n,
            forall|t: int| i <= t < n ==> #[trigger] packed_file@[t] == fs[t],
            forall|t: int|
                0 <= t < i ==> file_frozen(fs[t], #[trigger] packed_file@[t], lsf[t]),
            forall|t: int|
                0 <= t < i ==> (#[trigger] header@[t])@.path == fs[t].path@ && header@[t]@.pointers
                    == lsf[t],
        decreases n - i,
    {
        let mut f = PackedFile {
            pointers: Vec::new(),
            path: Vec::new(),
            byte_done: 0,
            byte_size: 0,
            bytes: Vec::new(),
            done: false,
            slice: 0,
        };
        packed_file.set_and_swap(i, &mut f);
        let path_copy = copy_bytes(&f.path);
        let entry_ptrs = copy_ptrs(&ptrs[i]);
        let file_ptrs = copy_ptrs(&ptrs[i]);
        let f2 = PackedFile {
            pointers: file_ptrs,
            path: f.path,
            byte_done: f.byte_size,
            byte_size: f.byte_size,
            bytes: f.bytes,
            done: true,
            slice: f.slice,
        };
        packed_file.set(i, f2);
        header.push(ArchivedFile { pointers: entry_ptrs, path: path_copy });
        i = i + 1;
    }

    let archive = PackedArchive { header, bytes: payload };
    proof {
        assert forall|t: int| 0 <= t < n implies entry_matches_file(
            archive@.payload,
            (#[trigger] archive@.entries[t]).pointers,
            fs[t],
        ) by {
            assert(archive@.entries[t] == header@[t]@);
            assert(archive@.entries[t].pointers == lsf[t]);
            assert forall|k: int| 0 <= k < lsf[t].len() implies #[trigger] lsf[t][k].0
                <= lsf[t][k].1 < archive@.payload.len() by {
                assert(all_ptrs_below(lsf, offset as int));
            }
            assert forall|k: int| 0 <= k && k + 1 < lsf[t].len() implies ptr_len(
                #[trigger] lsf[t][k],
            ) == fs[t].slice by {
                assert(donev@[t]);
            }
            assert(fs[t].bytes@.subrange(0, fs[t].byte_size as int) =~= fs[t].bytes@);
        }
        assert(entries_disjoint(archive@.entries)) by {
            assert(Seq::new(archive@.entries.len(), |t: int| archive@.entries[t].pointers)
                =~= lsf);
        }
        assert forall|t: int, k: int|
            0 <= t < n && 0 <= k < archive@.entries[t].pointers.len() implies ((
        #[trigger] archive@.entries[t].pointers[k]).0 as int == round_base(fs, k) + row_prefix(
            fs,
            t,
            k,
        ) && ptr_len(archive@.entries[t].pointers[k]) == chunk_len(
            fs[t].byte_size as int,
            fs[t].slice as int,
            k,
        )) by {
            assert(archive@.entries[t] == header@[t]@);
            assert(archive@.entries[t].pointers == lsf[t]);
            assert(lists_view(ptrs@)[t][k].0 as int == round_base(fs, k) + row_prefix(fs, t, k));
            assert(ptr_len(lists_view(ptrs@)[t][k]) == chunk_len(
                fs[t].byte_size as int,
                fs[t].slice as int,
                k,
            ));
        }
        assert forall|pos: int| 0 <= pos < archive@.payload.len() implies #[trigger] entries_cover(
            archive@.entries,
            pos,
        ) by {
            assert(lists_cover(lists_view(ptrs@), pos));
            let (wi, wk) = choose|wi: int, wk: int|
                0 <= wi < lsf.len() && 0 <= wk < lsf[wi].len() && ((#[trigger] lsf[wi][wk]).0 <= pos
                    <= lsf[wi][wk].1);
            assert(archive@.entries[wi].pointers == lsf[wi]);
            assert(0 <= wi < archive@.entries.len() && 0 <= wk
                < archive@.entries[wi].pointers.len() && (archive@.entries[wi].pointers[wk].0 <= pos
                <= archive@.entries[wi].pointers[wk].1));
        }
    }
    Ok(archive)
}

impl PackedFile {
    /// Loads one source file for packing: records its relative path (raw
    /// bytes of its string form), its content, and the chunk size the slice
    /// sizer assigns it.  A zero-byte file is rejected as a domain error.
    pub fn new(path: Vec<u8>, bytes: Vec<u8>) -> (r: Result<PackedFile, ArchiveError>)
        ensures
            bytes@.len() == 0 <==> r is Err,
            bytes@.len() == 0 <==> r == Err::<PackedFile, ArchiveError>(ArchiveError::DomainError),
            r matches Ok(f) ==> {
                &&& f.path@ == path@
                &&& f.bytes@ == bytes@
                &&& f.byte_size == bytes@.len()
                &&& file_fresh(f)
                &&& crate::slice::slice_size_ok(f.byte_size as int, f.slice as int)
                &&& file_packable(f)
            },
    {
        let byte_size: u64 = bytes.len() as u64;
        let slice = match crate::slice::slice_size(byte_size) {
            Ok(s) => s,
            Err(e) => {
                return Err(e);
            },
        };
        proof {
            // Ten chunks of the assigned size always cover the file, so the
            // chunk count stays far below the pointer-count field's limit.
            assert(byte_size <= 10 * slice && slice >= 1);
            assert((byte_size - 1) as int / slice as int <= 9) by (nonlinear_arith)
                requires
                    byte_size >= 1,
                    slice >= 1,
                    byte_size <= 10 * slice,
            ;
        }
        Ok(
            PackedFile {
                pointers: Vec::new(),
                path,
                byte_done: 0,
                byte_size,
                bytes,
                done: false,
                slice,
            },
        )
    }
}

} // verus!
