use vstd::prelude::*;

verus! {

/// Largest value a machine word may hold.
pub const WORD_MAX: i64 = 999;

/// Smallest value a machine word may hold.
pub const WORD_MIN: i64 = -999;

/// A value lies in the machine's word range.
pub open spec fn in_word_range(v: int) -> bool {
    WORD_MIN <= v <= WORD_MAX
}

/// Clamps `v` into the machine's word range.
pub open spec fn saturate(v: int) -> int {
    if v > WORD_MAX as int {
        WORD_MAX as int
    } else if v < WORD_MIN as int {
        WORD_MIN as int
    } else {
        v
    }
}

/// Clamps `v` into the machine's word range.
pub fn clamp_word(v: i64) -> (r: i64)
    ensures
        r as int == saturate(v as int),
        in_word_range(r as int),
{
    if v > WORD_MAX {
        WORD_MAX
    } else if v < WORD_MIN {
        WORD_MIN
    } else {
        v
    }
}

} // verus!
