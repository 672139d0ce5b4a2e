//! Powers of two and rounding to an alignment.

use vstd::prelude::*;

verus! {

/// `x` is a positive power of two.
pub open spec fn is_pow2(x: int) -> bool
    decreases x,
{
    if x <= 0 {
        false
    } else if x == 1 {
        true
    } else {
        x % 2 == 0 && is_pow2(x / 2)
    }
}

/// The smallest multiple of `alignment` that is at least `value`.
pub open spec fn round_up(value: int, alignment: int) -> int {
    (value + alignment - 1) / alignment * alignment
}

/// `round_up` gives the next multiple of `alignment`, and leaves a multiple
/// as it is.
pub proof fn lemma_round_up(value: int, alignment: int)
    requires
        0 <= value,
        0 < alignment,
    ensures
        value <= round_up(value, alignment) < value + alignment,
        round_up(value, alignment) % alignment == 0,
        value % alignment == 0 ==> round_up(value, alignment) == value,
{
    let q = (value + alignment - 1) / alignment;
    let r = (value + alignment - 1) % alignment;
    assert(value + alignment - 1 == q * alignment + r) by (nonlinear_arith)
        requires
            0 < alignment,
            q == (value + alignment - 1) / alignment,
            r == (value + alignment - 1) % alignment,
    ;
    assert((q * alignment) % alignment == 0) by (nonlinear_arith)
        requires
            0 < alignment,
    ;
    if value % alignment == 0 {
        let k = value / alignment;
        assert(value == k * alignment) by (nonlinear_arith)
            requires
                0 < alignment,
                value % alignment == 0,
                k == value / alignment,
        ;
        assert(value + alignment - 1 == k * alignment + (alignment - 1)) by (nonlinear_arith)
            requires
                value == k * alignment,
        ;
        assert(q == k) by (nonlinear_arith)
            requires
                0 < alignment,
                value + alignment - 1 == k * alignment + (alignment - 1),
                q == (value + alignment - 1) / alignment,
        ;
    }
}

/// Whether `x` is a positive power of two.
pub fn is_power_of_two(x: u64) -> (pow2: bool)
    ensures
        pow2 == is_pow2(x as int),
{
    if x == 0 {
        return false;
    }
    let mut v = x;
    while v > 1 && v % 2 == 0
        invariant
            v > 0,
            is_pow2(v as int) == is_pow2(x as int),
        decreases v,
    {
        v = v / 2;
    }
    v == 1
}

/// What `align_up_checked` returns.
pub open spec fn spec_align_up_checked(value: int, alignment: int) -> Option<usize> {
    if alignment == 0 || !is_pow2(alignment) || value + alignment - 1 > usize::MAX {
        None
    } else {
        Some(round_up(value, alignment) as usize)
    }
}

/// Rounds `value` up to `alignment`, a power of two; `None` on a bad
/// alignment or overflow.
pub fn align_up_checked(value: usize, alignment: usize) -> (aligned: Option<usize>)
    ensures
        aligned == spec_align_up_checked(value as int, alignment as int),
        aligned matches Some(a) ==> value <= a && a % alignment == 0,
{
    if alignment == 0 || !is_power_of_two(alignment as u64) {
        return None;
    }
    let mask = alignment - 1;
    let raised = value.checked_add(mask)?;
    proof {
        lemma_round_up(value as int, alignment as int);
        assert(raised - raised % alignment == round_up(value as int, alignment as int)) by (nonlinear_arith)
            requires
                alignment > 0,
                raised == value + alignment - 1,
        ;
    }
    Some(raised - raised % alignment)
}

} // verus!
