//! The archive reader: parses the binary header back into (path, content)
//! entries, reassembling each file's bytes from its pointer ranges.
//!
//! Reading starts with the 4-byte payload offset `O`; entry parsing begins
//! at byte 10 (past the offset field and the 6-byte magic, whose content
//! the reader does not examine) and continues until the cursor reaches `O`.  Pointer values are payload-relative and
//! are translated by `O` to absolute positions.  A truncated or
//! inconsistent header — a field crossing `O`, a missing path terminator, a
//! pointer outside the file or with its end before its start — is a parse
//! error.

use crate::be_bytes::{read_u32_be, read_u64_be, spec_u32_of_be, spec_u64_of_be};
use crate::errors::ArchiveError;
use crate::pack::append_range;
use vstd::prelude::*;

verus! {

/// One reconstructed file: its relative path (raw bytes of the stored
/// string) and its content.
#[derive(Debug)]
pub struct ExtractedFile {
    pub path: Vec<u8>,
    pub data: Vec<u8>,
}

/// The position of the first zero byte at or after `c` and before `off`.
pub open spec fn spec_find_nul(b: Seq<u8>, c: int, off: int) -> Option<int>
    decreases off - c,
{
    if c < 0 || c >= off || off > b.len() {
        None
    } else if b[c] == 0 {
        Some(c)
    } else {
        spec_find_nul(b, c + 1, off)
    }
}

/// A found terminator lies in `[c, off)`, is a zero byte, and nothing
/// before it (from `c` on) is zero.
pub proof fn lemma_find_nul_bounds(b: Seq<u8>, c: int, off: int)
    requires
        spec_find_nul(b, c, off) is Some,
    ensures
        ({
            let p = spec_find_nul(b, c, off)->Some_0;
            &&& c <= p < off <= b.len()
            &&& b[p] == 0
            &&& forall|j: int| c <= j < p ==> b[j] != 0
        }),
    decreases off - c,
{
    if !(c < 0 || c >= off || off > b.len()) && b[c] != 0 {
        lemma_find_nul_bounds(b, c + 1, off);
    }
}

/// The contents the next `n` pointers denote, read at header position `c`
/// against payload offset `off`: each pointer is start and end (inclusive,
/// big-endian), translated by `off`; the ranges are concatenated in order.
pub open spec fn spec_parse_pointers(b: Seq<u8>, c: int, n: int, off: int) -> Option<Seq<u8>>
    decreases n,
{
    if n <= 0 {
        Some(Seq::empty())
    } else {
        let s = spec_u64_of_be(b.subrange(c, c + 8)) as int;
        let e = spec_u64_of_be(b.subrange(c + 8, c + 16)) as int;
        if s > e || e + off >= b.len() {
            None
        } else {
            match spec_parse_pointers(b, c + 16, n - 1, off) {
                Option::None => None,
                Option::Some(rest) => Some(b.subrange(s + off, e + off + 1) + rest),
            }
        }
    }
}

/// The entries encoded from header position `c` up to exactly `off`: each
/// is a zero-terminated path, a one-byte pointer count, and that many
/// 16-byte pointers, with every field lying before `off`.
pub open spec fn spec_parse_entries(b: Seq<u8>, c: int, off: int) -> Option<
    Seq<(Seq<u8>, Seq<u8>)>,
>
    decreases off - c,
    via spec_parse_entries_dec
{
    if c < 0 || c > off || off > b.len() {
        None
    } else if c == off {
        Some(Seq::empty())
    } else {
        match spec_find_nul(b, c, off) {
            Option::None => None,
            Option::Some(p) => {
                if p + 1 >= off {
                    None
                } else {
                    let n = b[p + 1] as int;
                    if p + 2 + 16 * n > off {
                        None
                    } else {
                        match spec_parse_pointers(b, p + 2, n, off) {
                            Option::None => None,
                            Option::Some(data) => {
                                match spec_parse_entries(b, p + 2 + 16 * n, off) {
                                    Option::None => None,
                                    Option::Some(rest) => Some(
                                        seq![(b.subrange(c, p), data)] + rest,
                                    ),
                                }
                            },
                        }
                    }
                }
            },
        }
    }
}

#[via_fn]
proof fn spec_parse_entries_dec(b: Seq<u8>, c: int, off: int) {
    if !(c < 0 || c > off || off > b.len()) && c != off {
        if spec_find_nul(b, c, off) is Some {
            lemma_find_nul_bounds(b, c, off);
        }
    }
}

/// What a whole archive file parses to: the offset field must cover at
/// least the fixed preamble and lie within the file; the entries fill the
/// header region exactly.
pub open spec fn spec_parse_archive(b: Seq<u8>) -> Option<Seq<(Seq<u8>, Seq<u8>)>> {
    if b.len() < 10 {
        None
    } else {
        let off = spec_u32_of_be(b.subrange(0, 4)) as int;
        if off < 10 || off > b.len() {
            None
        } else {
            spec_parse_entries(b, 10, off)
        }
    }
}

/// The (path, content) pairs a sequence of extracted files denotes.
pub open spec fn extracted_model(v: Seq<ExtractedFile>) -> Seq<(Seq<u8>, Seq<u8>)> {
    Seq::new(v.len(), |i: int| (v[i].path@, v[i].data@))
}

/// Prepends already-extracted entries to a parse tail.
pub open spec fn opt_prepend(
    pre: Seq<(Seq<u8>, Seq<u8>)>,
    o: Option<Seq<(Seq<u8>, Seq<u8>)>>,
) -> Option<Seq<(Seq<u8>, Seq<u8>)>> {
    match o {
        Option::None => None,
        Option::Some(rest) => Some(pre + rest),
    }
}

/// Prepends already-gathered content bytes to a pointer-parse tail.
pub open spec fn opt_prepend_data(pre: Seq<u8>, o: Option<Seq<u8>>) -> Option<Seq<u8>> {
    match o {
        Option::None => None,
        Option::Some(rest) => Some(pre + rest),
    }
}

/// Parses an archive's byte image into its files, reassembling each file's
/// content by concatenating its pointer ranges in order.  Fails with a
/// parse error exactly when the bytes are not a well-formed archive.
pub fn parse_archive(bytes: &Vec<u8>) -> (r: Result<Vec<ExtractedFile>, ArchiveError>)
    ensures
        r is Err <==> spec_parse_archive(bytes@) is None,
        r matches Err(e) ==> e is ParseError,
        r matches Ok(v) ==> Some(extracted_model(v@)) == spec_parse_archive(bytes@),
{
    let len = bytes.len();
    if len < 10 {
        return Err(ArchiveError::ParseError);
    }
    let off32 = read_u32_be(bytes, 0);
    if off32 < 10 {
        return Err(ArchiveError::ParseError);
    }
    if (off32 as u64) > (len as u64) {
        return Err(ArchiveError::ParseError);
    }
    let off = off32 as usize;
    let ghost b = bytes@;
    let ghost offi = off as int;
    assert(spec_parse_archive(b) == spec_parse_entries(b, 10, offi));

    let mut results: Vec<ExtractedFile> = Vec::new();
    let mut cursor: usize = 10;
    proof {
        assert(extracted_model(results@) =~= Seq::<(Seq<u8>, Seq<u8>)>::empty());
        assert(opt_prepend(extracted_model(results@), spec_parse_entries(b, 10, offi))
            == spec_parse_entries(b, 10, offi)) by {
            if spec_parse_entries(b, 10, offi) is Some {
                assert(Seq::<(Seq<u8>, Seq<u8>)>::empty() + spec_parse_entries(
                    b,
                    10,
                    offi,
                )->Some_0 =~= spec_parse_entries(b, 10, offi)->Some_0);
            }
        }
    }
    while cursor < off
        invariant
            b == bytes@,
            len == b.len(),
            10 <= cursor <= off <= len,
            offi == off as int,
            spec_parse_archive(b) == spec_parse_entries(b, 10, offi),
            spec_parse_entries(b, 10, offi) == opt_prepend(
                extracted_model(results@),
                spec_parse_entries(b, cursor as int, offi),
            ),
        decreases off - cursor,
    {
        let ghost results0 = results@;
        let start = cursor;
        let mut p = start;
        while p < off && bytes[p] != 0
            invariant
                b == bytes@,
                len == b.len(),
                start <= p <= off <= len,
                spec_find_nul(b, start as int, offi) == spec_find_nul(b, p as int, offi),
            decreases off - p,
        {
            proof {
                assert(spec_find_nul(b, p as int, offi) == spec_find_nul(b, p as int + 1, offi));
            }
            p = p + 1;
        }
        if p >= off {
            assert(spec_find_nul(b, p as int, offi) is None);
            assert(spec_parse_entries(b, cursor as int, offi) is None);
            return Err(ArchiveError::ParseError);
        }
        assert(bytes@[p as int] == 0);
        assert(spec_find_nul(b, start as int, offi) == Some(p as int));

        let mut path: Vec<u8> = Vec::new();
        append_range(&mut path, bytes, start, p - start);
        assert(path@ =~= b.subrange(start as int, p as int));

        if p + 1 >= off {
            assert(spec_parse_entries(b, cursor as int, offi) is None);
            return Err(ArchiveError::ParseError);
        }
        let n_ptrs = bytes[p + 1];
        let ghost ni = n_ptrs as int;
        assert(ni == b[p as int + 1] as int);
        let need: usize = 16 * (n_ptrs as usize);
        if off - (p + 2) < need {
            assert(p as int + 2 + 16 * ni > offi);
            assert(spec_parse_entries(b, cursor as int, offi) is None);
            return Err(ArchiveError::ParseError);
        }
        assert(p as int + 2 + 16 * ni <= offi);

        let mut data: Vec<u8> = Vec::new();
        let mut k: usize = 0;
        let mut c = p + 2;
        proof {
            assert(opt_prepend_data(data@, spec_parse_pointers(b, c as int, ni, offi))
                == spec_parse_pointers(b, p as int + 2, ni, offi)) by {
                if spec_parse_pointers(b, p as int + 2, ni, offi) is Some {
                    assert(Seq::<u8>::empty() + spec_parse_pointers(
                        b,
                        p as int + 2,
                        ni,
                        offi,
                    )->Some_0 =~= spec_parse_pointers(b, p as int + 2, ni, offi)->Some_0);
                }
            }
        }
        while k < n_ptrs as usize
            invariant
                b == bytes@,
                len == b.len(),
                offi == off as int,
                10 <= cursor < off <= len,
                ni == n_ptrs as int,
                k <= n_ptrs as usize,
                c == p + 2 + 16 * k,
                cursor as int <= p as int,
                p as int + 1 < offi,
                p as int + 2 + 16 * ni <= offi,
                spec_find_nul(b, cursor as int, offi) == Some(p as int),
                ni == b[p as int + 1] as int,
                spec_parse_archive(b) == spec_parse_entries(b, 10, offi),
                spec_parse_entries(b, 10, offi) == opt_prepend(
                    extracted_model(results@),
                    spec_parse_entries(b, cursor as int, offi),
                ),
                spec_parse_pointers(b, p as int + 2, ni, offi) == opt_prepend_data(
                    data@,
                    spec_parse_pointers(b, c as int, ni - k, offi),
                ),
            decreases n_ptrs as usize - k,
        {
            let ghost data0 = data@;
            let s = read_u64_be(bytes, c);
            let e = read_u64_be(bytes, c + 8);
            assert(s == spec_u64_of_be(b.subrange(c as int, c as int + 8)));
            assert(e == spec_u64_of_be(b.subrange(c as int + 8, c as int + 16)));
            if s > e {
                assert(spec_parse_pointers(b, c as int, ni - k, offi) is None);
                assert(spec_parse_entries(b, cursor as int, offi) is None);
                return Err(ArchiveError::ParseError);
            }
            if (e as u128) + (off as u128) >= (len as u128) {
                assert(e as int + offi >= b.len());
                assert(spec_parse_pointers(b, c as int, ni - k, offi) is None);
                assert(spec_parse_entries(b, cursor as int, offi) is None);
                return Err(ArchiveError::ParseError);
            }
            assert(e as int + offi < b.len());
            let ss = (s as usize) + off;
            let ee = (e as usize) + off;
            assert(ss as int == s as int + offi && ee as int == e as int + offi);
            append_range(&mut data, bytes, ss, ee + 1 - ss);
            proof {
                assert(data@ =~= data0 + b.subrange(s as int + offi, e as int + offi + 1));
            }
            c = c + 16;
            k = k + 1;
            proof {
                let tail = spec_parse_pointers(b, c as int, ni - k, offi);
                assert(spec_parse_pointers(b, c as int - 16, ni - (k - 1), offi)
                    == opt_prepend_data(
                    b.subrange(s as int + offi, e as int + offi + 1),
                    tail,
                ));
                if tail is Some {
                    assert(data0 + (b.subrange(s as int + offi, e as int + offi + 1)
                        + tail->Some_0) =~= data@ + tail->Some_0);
                }
            }
        }
        proof {
            assert(spec_parse_pointers(b, c as int, 0, offi) == Some(Seq::<u8>::empty()));
            assert(data@ + Seq::<u8>::empty() =~= data@);
            assert(spec_parse_pointers(b, p as int + 2, ni, offi) == Some(data@));
        }

        let ghost path_s = path@;
        let ghost data_s = data@;
        results.push(ExtractedFile { path, data });
        cursor = p + 2 + need;
        proof {
            let tail = spec_parse_entries(b, cursor as int, offi);
            assert(spec_parse_entries(b, start as int, offi) == opt_prepend(
                seq![(path_s, data_s)],
                tail,
            ));
            assert(extracted_model(results@) =~= extracted_model(results0).push(
                (path_s, data_s),
            ));
            if tail is Some {
                assert(extracted_model(results0) + (seq![(path_s, data_s)] + tail->Some_0)
                    =~= extracted_model(results@) + tail->Some_0);
            }
        }
    }
    proof {
        assert(spec_parse_entries(b, cursor as int, offi) == Some(
            Seq::<(Seq<u8>, Seq<u8>)>::empty(),
        ));
        assert(extracted_model(results@) + Seq::<(Seq<u8>, Seq<u8>)>::empty() =~= extracted_model(
            results@,
        ));
    }
    Ok(results)
}

} // verus!
