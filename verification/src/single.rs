//! The order of IEEE 754 single-precision numbers, worked out on their bit
//! patterns.

use vstd::arithmetic::power2::pow2;
use vstd::prelude::*;

verus! {

/// The sign bit.
pub const SIGN_BIT: u32 = 0x8000_0000;

/// The bit pattern of positive infinity. A pattern without its sign bit stands
/// for a NaN exactly if it is greater.
pub const INFINITY_BITS: u32 = 0x7f80_0000;

/// The bit pattern of one.
pub const ONE_BITS: u32 = 0x3f80_0000;

/// A single-precision number, as its bit pattern. `==` compares patterns.
#[derive(Clone, Copy, Debug, PartialEq, Eq, Structural)]
pub struct Single {
    pub bits: u32,
}

impl Single {
    /// An integer by which numbers are ordered. Both zeros have the key zero.
    pub open spec fn key(self) -> int {
        if self.bits >= SIGN_BIT {
            SIGN_BIT - self.bits
        } else {
            self.bits as int
        }
    }

    /// The pattern stands for no number.
    pub open spec fn nan(self) -> bool {
        self.key() > INFINITY_BITS || self.key() < -INFINITY_BITS
    }

    /// The numeric comparison, which no NaN takes part in.
    pub open spec fn below(self, other: Single) -> bool {
        !self.nan() && !other.nan() && self.key() < other.key()
    }

    /// The smaller of two numbers: a NaN gives way to the other operand, and of
    /// two equal numbers the first is taken.
    pub open spec fn smaller(self, other: Single) -> Single {
        if self.nan() {
            other
        } else if other.nan() || self.key() <= other.key() {
            self
        } else {
            other
        }
    }

    /// The larger of two numbers, with the same treatment of NaN and of equal
    /// numbers.
    pub open spec fn larger(self, other: Single) -> Single {
        if self.nan() {
            other
        } else if other.nan() || self.key() >= other.key() {
            self
        } else {
            other
        }
    }

    /// Positive infinity.
    pub open spec fn infinity_spec() -> Single {
        Single { bits: INFINITY_BITS }
    }

    /// Negative infinity.
    pub open spec fn neg_infinity_spec() -> Single {
        Single { bits: 0xff80_0000 }
    }

    /// Positive infinity.
    pub fn infinity() -> (r: Single)
        ensures
            r == Single::infinity_spec(),
            r.bits == 0x7f80_0000,
    {
        Single { bits: INFINITY_BITS }
    }

    /// Negative infinity.
    pub fn neg_infinity() -> (r: Single)
        ensures
            r == Single::neg_infinity_spec(),
            r.bits == 0xff80_0000,
    {
        Single { bits: 0xff80_0000 }
    }

    /// Whether the pattern stands for no number.
    pub fn is_nan(self) -> (r: bool)
        ensures
            r == self.nan(),
            r <==> self.bits % 0x8000_0000 > 0x7f80_0000,
    {
        if self.bits >= SIGN_BIT {
            self.bits - SIGN_BIT > INFINITY_BITS
        } else {
            self.bits > INFINITY_BITS
        }
    }

    fn ordering_key(self) -> (r: i64)
        ensures
            r == self.key(),
    {
        if self.bits >= SIGN_BIT {
            SIGN_BIT as i64 - self.bits as i64
        } else {
            self.bits as i64
        }
    }

    /// `self < other`.
    pub fn lt(self, other: Single) -> (r: bool)
        ensures
            r == self.below(other),
            r <==> self.bits % 0x8000_0000 <= 0x7f80_0000 && other.bits % 0x8000_0000 <= 0x7f80_0000 && self.value()
                < other.value(),
    {
        proof {
            lemma_order_is_numeric(self, other);
        }
        !self.is_nan() && !other.is_nan() && self.ordering_key() < other.ordering_key()
    }

    /// The smaller of two numbers.
    pub fn min(self, other: Single) -> (r: Single)
        ensures
            r == self.smaller(other),
            self.bits % 0x8000_0000 > 0x7f80_0000 ==> r == other,
            self.bits % 0x8000_0000 <= 0x7f80_0000 && other.bits % 0x8000_0000 > 0x7f80_0000 ==> r == self,
            self.bits % 0x8000_0000 <= 0x7f80_0000 && other.bits % 0x8000_0000 <= 0x7f80_0000 ==> {
                &&& r == self <== self.value() <= other.value()
                &&& r == other <== other.value() < self.value()
            },
    {
        proof {
            lemma_order_is_numeric(self, other);
        }
        if self.is_nan() {
            other
        } else if other.is_nan() || self.ordering_key() <= other.ordering_key() {
            self
        } else {
            other
        }
    }

    /// The larger of two numbers.
    pub fn max(self, other: Single) -> (r: Single)
        ensures
            r == self.larger(other),
            self.bits % 0x8000_0000 > 0x7f80_0000 ==> r == other,
            self.bits % 0x8000_0000 <= 0x7f80_0000 && other.bits % 0x8000_0000 > 0x7f80_0000 ==> r == self,
            self.bits % 0x8000_0000 <= 0x7f80_0000 && other.bits % 0x8000_0000 <= 0x7f80_0000 ==> {
                &&& r == self <== other.value() <= self.value()
                &&& r == other <== self.value() < other.value()
            },
    {
        proof {
            lemma_order_is_numeric(self, other);
        }
        if self.is_nan() {
            other
        } else if other.is_nan() || self.ordering_key() >= other.ordering_key() {
            self
        } else {
            other
        }
    }
}

/// The number that a pattern without its sign bit stands for, in units of the
/// least number above zero: a fraction of 23 bits below an exponent of 8, which
/// counts from one and adds a leading one to the fraction. Infinity comes out as
/// the number that would follow the greatest.
pub open spec fn magnitude(pattern: int) -> int {
    let exponent = pattern / 0x80_0000;
    let fraction = pattern % 0x80_0000;
    if exponent == 0 {
        fraction
    } else {
        (0x80_0000 + fraction) * pow2((exponent - 1) as nat)
    }
}

impl Single {
    /// The number that is meant, in units of the least number above zero.
    pub open spec fn value(self) -> int {
        if self.bits < 0x8000_0000 {
            magnitude(self.bits as int)
        } else {
            -magnitude(self.bits - 0x8000_0000)
        }
    }
}

proof fn lemma_next_magnitude(pattern: int)
    requires
        0 <= pattern,
    ensures
        magnitude(pattern) < magnitude(pattern + 1),
{
    let exponent = pattern / 0x80_0000;
    let fraction = pattern % 0x80_0000;
    if fraction + 1 < 0x80_0000 {
        assert((pattern + 1) / 0x80_0000 == exponent);
        assert((pattern + 1) % 0x80_0000 == fraction + 1);
        if exponent > 0 {
            let p = pow2((exponent - 1) as nat) as int;
            vstd::arithmetic::power2::lemma_pow2_pos((exponent - 1) as nat);
            assert((0x80_0000 + fraction) * p < (0x80_0000 + fraction + 1) * p) by (nonlinear_arith)
                requires
                    p > 0,
            ;
        }
    } else {
        assert((pattern + 1) / 0x80_0000 == exponent + 1);
        assert((pattern + 1) % 0x80_0000 == 0);
        vstd::arithmetic::power2::lemma_pow2_pos(exponent as nat);
        if exponent > 0 {
            let p = pow2((exponent - 1) as nat) as int;
            vstd::arithmetic::power2::lemma_pow2_unfold(exponent as nat);
            vstd::arithmetic::power2::lemma_pow2_pos((exponent - 1) as nat);
            assert((0x80_0000 + 0x7f_ffff) * p < 0x80_0000 * (2 * p)) by (nonlinear_arith)
                requires
                    p > 0,
            ;
        } else {
            vstd::arithmetic::power2::lemma2_to64();
        }
    }
}

/// Of two patterns without sign bits, the greater stands for the greater number.
pub proof fn lemma_magnitude_grows(a: int, b: int)
    requires
        0 <= a < b,
    ensures
        0 <= magnitude(a) < magnitude(b),
    decreases b,
{
    if a + 1 < b {
        lemma_magnitude_grows(a, b - 1);
    } else if a > 0 {
        lemma_magnitude_grows(a - 1, a);
    } else {
        assert(magnitude(0) == 0);
    }
    lemma_next_magnitude(b - 1);
}

/// The comparison of patterns is that of the numbers they stand for, keys are in
/// the order of the numbers, and what exceeds the pattern of infinity takes part
/// in no comparison.
pub proof fn lemma_order_is_numeric(a: Single, b: Single)
    ensures
        a.nan() <==> a.bits % 0x8000_0000 > 0x7f80_0000,
        a.key() < b.key() <==> a.value() < b.value(),
        a.key() == b.key() <==> a.value() == b.value(),
        a.below(b) <==> a.bits % 0x8000_0000 <= 0x7f80_0000 && b.bits % 0x8000_0000 <= 0x7f80_0000 && a.value()
            < b.value(),
{
    let m = a.bits as int % 0x8000_0000;
    let n = b.bits as int % 0x8000_0000;
    assert(magnitude(0) == 0);
    if m > 0 {
        lemma_magnitude_grows(0, m);
    }
    if n > 0 {
        lemma_magnitude_grows(0, n);
    }
    if m < n {
        lemma_magnitude_grows(m, n);
    }
    if n < m {
        lemma_magnitude_grows(n, m);
    }
}

/// Of two numbers, the smaller and the larger are the two again, in order; each
/// is one of the operands, and a NaN is chosen only where both are.
pub proof fn lemma_smaller_and_larger(a: Single, b: Single)
    ensures
        a.nan() ==> a.smaller(b) == b && a.larger(b) == b,
        !a.nan() && b.nan() ==> a.smaller(b) == a && a.larger(b) == a,
        !a.nan() && !b.nan() ==> {
            &&& a.smaller(b).value() <= a.value() <= a.larger(b).value()
            &&& a.smaller(b).value() <= b.value() <= a.larger(b).value()
            &&& a.smaller(b) == a && a.larger(b) == b || a.smaller(b) == b && a.larger(b) == a || a.value() == b.value()
                && a.smaller(b) == a && a.larger(b) == a
        },
{
    lemma_order_is_numeric(a, b);
    lemma_order_is_numeric(b, a);
}

/// The infinities are numbers, and no number lies beyond them.
pub proof fn lemma_infinities_are_extreme(s: Single)
    requires
        !s.nan(),
    ensures
        Single::infinity_spec().bits == 0x7f80_0000,
        Single::neg_infinity_spec().bits == 0xff80_0000,
        Single::neg_infinity_spec().value() <= s.value() <= Single::infinity_spec().value(),
{
    lemma_order_is_numeric(s, Single::infinity_spec());
    lemma_order_is_numeric(Single::neg_infinity_spec(), s);
}

} // verus!
