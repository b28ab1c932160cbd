//! The tagged word: one 128-bit value that packs a pointer (high 64 bits)
//! together with a reader count (low 64 bits).
//!
//! Fusing the two fields into a single word is what lets a reader register
//! itself and observe the current pointer in one atomic step, and what lets a
//! writer displace the pointer and capture the pending reader count in one
//! swap.  The operations here adjust the count while provably leaving the
//! pointer field intact.

use vstd::prelude::*;

verus! {

/// The pointer field of a tagged word: its high 64 bits.
pub open spec fn ptr_of(w: u128) -> u64 {
    (w >> 64) as u64
}

/// The count field of a tagged word: its low 64 bits.
pub open spec fn cnt_of(w: u128) -> u64 {
    (w & 0xffff_ffff_ffff_ffff) as u64
}

/// The tagged word with pointer field `p` and count field `c`.
pub open spec fn pack(p: u64, c: u64) -> u128 {
    ((p as u128) << 64) | (c as u128)
}

/// Packing then unpacking returns the fields unchanged.
pub proof fn lemma_pack_fields(p: u64, c: u64)
    ensures
        ptr_of(pack(p, c)) == p,
        cnt_of(pack(p, c)) == c,
{
    assert(((((p as u128) << 64) | (c as u128)) >> 64) as u64 == p) by (bit_vector);
    assert(((((p as u128) << 64) | (c as u128)) & 0xffff_ffff_ffff_ffff) as u64 == c)
        by (bit_vector);
}

/// A word is zero exactly when both of its fields are zero.
pub proof fn lemma_word_zero(w: u128)
    ensures
        (w == 0) <==> (ptr_of(w) == 0 && cnt_of(w) == 0),
{
    assert((w == 0) <==> ((w >> 64) as u64 == 0 && (w & 0xffff_ffff_ffff_ffff) as u64 == 0))
        by (bit_vector);
}

/// Packs a pointer and a count into one tagged word.
pub fn word_pack(p: u64, c: u64) -> (w: u128)
    ensures
        w == pack(p, c),
        ptr_of(w) == p,
        cnt_of(w) == c,
{
    proof {
        lemma_pack_fields(p, c);
    }
    ((p as u128) << 64) | (c as u128)
}

/// Reads the pointer field of a tagged word.
pub fn word_ptr(w: u128) -> (p: u64)
    ensures
        p == ptr_of(w),
{
    (w >> 64) as u64
}

/// Reads the count field of a tagged word.
pub fn word_cnt(w: u128) -> (c: u64)
    ensures
        c == cnt_of(w),
{
    (w & 0xffff_ffff_ffff_ffff) as u64
}

/// Adds one to the count field; the pointer field is unchanged.  This is the
/// whole-word addition a reader performs at acquisition.
pub fn word_inc(w: u128) -> (r: u128)
    requires
        cnt_of(w) < u64::MAX,
    ensures
        r == pack(ptr_of(w), (cnt_of(w) + 1) as u64),
{
    proof {
        assert(((w & 0xffff_ffff_ffff_ffff) as u64) < 0xffff_ffff_ffff_ffffu64 ==> w < (u128::MAX)
            && w + 1 == ((((w >> 64) as u64) as u128) << 64) | ((((w & 0xffff_ffff_ffff_ffff)
            as u64) + 1) as u128)) by (bit_vector);
    }
    w + 1
}

/// Subtracts one from the count field; the pointer field is unchanged.  This
/// is the whole-word subtraction a guard performs at release.
pub fn word_dec(w: u128) -> (r: u128)
    requires
        cnt_of(w) > 0,
    ensures
        r == pack(ptr_of(w), (cnt_of(w) - 1) as u64),
{
    proof {
        assert(((w & 0xffff_ffff_ffff_ffff) as u64) > 0 ==> w > 0 && w - 1 == ((((w >> 64)
            as u64) as u128) << 64) | ((((w & 0xffff_ffff_ffff_ffff) as u64) - 1) as u128))
            by (bit_vector);
    }
    w - 1
}

} // verus!
