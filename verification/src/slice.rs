//! The slice sizer: computes the per-file chunk size used when interleaving
//! files into the payload.
//!
//! For a file of `s` bytes (`s >= 1`) the chunk size is the largest power of
//! ten strictly below `s`, except that a one-byte file gets chunk size 1.
//! This bounds the number of rounds any file needs to at most ten while
//! letting larger files move proportionally more bytes per round.

use crate::errors::ArchiveError;
use vstd::prelude::*;

verus! {

/// `10^k`, as a mathematical integer.
pub open spec fn pow10(k: nat) -> int
    decreases k,
{
    if k == 0 {
        1
    } else {
        10 * pow10((k - 1) as nat)
    }
}

/// `x` is a power of ten.
pub open spec fn is_pow10(x: int) -> bool {
    exists|k: nat| x == pow10(k)
}

/// The chunk size `c` is right for a file of `s` bytes: `c` is a power of
/// ten, lies strictly below `s` (except for `s == 1`, where `c == 1`), and
/// ten chunks of size `c` suffice to cover `s` bytes.  These three clauses
/// pin `c` uniquely.
pub open spec fn slice_size_ok(s: int, c: int) -> bool {
    &&& is_pow10(c)
    &&& (c < s || c == 1)
    &&& s <= 10 * c
}

pub proof fn lemma_pow10_positive(k: nat)
    ensures
        pow10(k) >= 1,
    decreases k,
{
    if k > 0 {
        lemma_pow10_positive((k - 1) as nat);
    }
}

/// Powers of ten grow by at least a factor of ten per exponent step.
proof fn lemma_pow10_step_up(k1: nat, k2: nat)
    requires
        k1 < k2,
    ensures
        10 * pow10(k1) <= pow10(k2),
    decreases k2,
{
    lemma_pow10_positive(k1);
    if k2 == k1 + 1 {
    } else {
        lemma_pow10_step_up(k1, (k2 - 1) as nat);
        lemma_pow10_positive((k2 - 1) as nat);
    }
}

/// Determinism of chunk sizing: the three clauses of `slice_size_ok` admit
/// only one chunk size for a given file size, so any two runs of the sizer
/// agree.
pub proof fn lemma_slice_size_deterministic(s: int, c1: int, c2: int)
    requires
        s >= 1,
        slice_size_ok(s, c1),
        slice_size_ok(s, c2),
    ensures
        c1 == c2,
{
    let k1 = choose|k: nat| c1 == pow10(k);
    let k2 = choose|k: nat| c2 == pow10(k);
    lemma_pow10_positive(k1);
    lemma_pow10_positive(k2);
    if c1 < c2 {
        assert(c2 > 1);
        assert(c2 < s);
        assert(k1 < k2) by {
            if k1 == k2 {
                assert(c1 == c2);
            } else if k1 > k2 {
                lemma_pow10_step_up(k2, k1);
            }
        }
        lemma_pow10_step_up(k1, k2);
        assert(s > c2 >= 10 * c1 >= s);
    } else if c2 < c1 {
        assert(c1 > 1);
        assert(c1 < s);
        assert(k2 < k1) by {
            if k1 == k2 {
                assert(c1 == c2);
            } else if k2 > k1 {
                lemma_pow10_step_up(k1, k2);
            }
        }
        lemma_pow10_step_up(k2, k1);
        assert(s > c1 >= 10 * c2 >= s);
    }
}

/// The chunk size for a file of `byte_size` bytes.  A zero-byte file has no
/// defined chunk size and is rejected as a domain error.
pub fn slice_size(byte_size: u64) -> (r: Result<u64, ArchiveError>)
    ensures
        byte_size == 0 <==> r == Err::<u64, ArchiveError>(ArchiveError::DomainError),
        byte_size == 0 <==> r is Err,
        r matches Ok(c) ==> slice_size_ok(byte_size as int, c as int),
{
    if byte_size == 0 {
        return Err(ArchiveError::DomainError);
    }
    let mut c: u64 = 1;
    proof {
        assert(1 == pow10(0));
    }
    while c <= (byte_size - 1) / 10
        invariant
            1 <= c <= byte_size,
            byte_size >= 1,
            is_pow10(c as int),
            c == 1 || c < byte_size,
        decreases byte_size - c,
    {
        proof {
            let k = choose|k: nat| c as int == pow10(k);
            assert(10 * c as int == pow10(k + 1));
        }
        assert(c * 10 < byte_size);
        c = c * 10;
    }
    assert(10 * c >= byte_size);
    Ok(c)
}

} // verus!
