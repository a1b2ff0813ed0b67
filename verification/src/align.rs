//! Rounding a byte count up to a multiple of an alignment.

use vstd::prelude::*;

verus! {

/// The least multiple of `alignment` that is not below `value`.
pub open spec fn aligned(value: int, alignment: int) -> int
    recommends
        value >= 0,
        alignment > 0,
{
    ((value + alignment - 1) / alignment) * alignment
}

/// Rounds `value` up to a multiple of `alignment`.
pub fn align_to(value: u32, alignment: u32) -> (r: u32)
    requires
        alignment > 0,
        value + alignment <= u32::MAX,
    ensures
        r == aligned(value as int, alignment as int),
        r % alignment == 0,
        value <= r < value + alignment,
        forall|k: int| value <= #[trigger] (k * alignment) ==> r <= k * alignment,
{
    proof {
        lemma_aligned_is_least_multiple(value as int, alignment as int);
    }
    ((value + alignment - 1) / alignment) * alignment
}

/// `aligned` is a multiple of the alignment, at least the value, and every
/// multiple that is at least the value is no smaller.
pub proof fn lemma_aligned_is_least_multiple(value: int, alignment: int)
    requires
        0 <= value,
        0 < alignment,
    ensures
        aligned(value, alignment) % alignment == 0,
        value <= aligned(value, alignment) < value + alignment,
        forall|k: int| value <= #[trigger] (k * alignment) ==> aligned(value, alignment) <= k * alignment,
{
    let s = value + alignment - 1;
    let q = s / alignment;
    vstd::arithmetic::div_mod::lemma_fundamental_div_mod(s, alignment);
    vstd::arithmetic::div_mod::lemma_mod_bound(s, alignment);
    vstd::arithmetic::div_mod::lemma_mod_multiples_basic(q, alignment);
    vstd::arithmetic::mul::lemma_mul_is_commutative(q, alignment);
    assert forall|k: int| value <= #[trigger] (k * alignment) implies q * alignment <= k * alignment by {
        assert(q > k ==> q * alignment >= k * alignment + alignment) by (nonlinear_arith)
            requires
                alignment > 0,
        ;
        assert(q <= k ==> q * alignment <= k * alignment) by (nonlinear_arith)
            requires
                alignment > 0,
        ;
    }
}

} // verus!
