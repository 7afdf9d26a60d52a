//! Floating-point values by their bit patterns, compared as IEEE 754 says.

use core::cmp::Ordering;

use vstd::arithmetic::power2::pow2;
use vstd::prelude::*;
use vstd::std_specs::cmp::{PartialEqSpecImpl, PartialOrdSpecImpl};

verus! {

/// A binary32 value, held as its bit pattern.
#[derive(Clone, Copy, Debug)]
pub struct Float32 {
    pub bits: u32,
}

/// A binary64 value, held as its bit pattern.
#[derive(Clone, Copy, Debug)]
pub struct Float64 {
    pub bits: u64,
}

impl Float32 {
    pub open spec fn negative(self) -> bool {
        self.bits >= 0x8000_0000
    }

    /// The bit pattern without its sign; it grows with the absolute value.
    pub open spec fn magnitude(self) -> int {
        self.bits as int % 0x8000_0000
    }

    pub open spec fn is_nan(self) -> bool {
        self.magnitude() > 0x7f80_0000
    }

    /// An integer that orders the values other than NaN; both zeros are 0.
    pub open spec fn rank(self) -> int {
        if self.negative() {
            -self.magnitude()
        } else {
            self.magnitude()
        }
    }

    pub open spec fn is_infinite(self) -> bool {
        self.magnitude() == 0x7f80_0000
    }

    /// Absolute value of a finite number, in units of the smallest positive
    /// one. There are `pow2(149)` such units in 1.
    pub open spec fn units(self) -> nat {
        magnitude_units(self.magnitude())
    }

    /// A finite number in units of the smallest positive one.
    pub open spec fn signed_units(self) -> int {
        if self.negative() {
            -self.units()
        } else {
            self.units() as int
        }
    }

    /// Whether this value is at least `other`; never so for NaN.
    pub open spec fn at_least(self, other: Float32) -> bool {
        !self.is_nan() && !other.is_nan() && self.rank() >= other.rank()
    }
}

/// What an exponent and a fraction field stand for, in units of the smallest
/// positive number.
pub open spec fn magnitude_units(magnitude: int) -> nat {
    let exponent = magnitude / 0x80_0000;
    let fraction = magnitude % 0x80_0000;
    if exponent <= 0 {
        fraction as nat
    } else {
        ((fraction + 0x80_0000) as nat) * pow2((exponent - 1) as nat)
    }
}

/// A larger magnitude stands for a larger number.
pub proof fn law_units_follow_magnitude(small: int, large: int)
    requires
        0 <= small < large,
    ensures
        magnitude_units(small) < magnitude_units(large),
{
    let e1 = small / 0x80_0000;
    let e2 = large / 0x80_0000;
    let f1 = small % 0x80_0000;
    let f2 = large % 0x80_0000;
    vstd::arithmetic::power2::lemma2_to64();
    if e1 == e2 {
        if e1 > 0 {
            let p = pow2((e1 - 1) as nat);
            vstd::arithmetic::power2::lemma_pow2_pos((e1 - 1) as nat);
            assert((f1 + 0x80_0000) * p < (f2 + 0x80_0000) * p) by (nonlinear_arith)
                requires
                    f1 < f2,
                    p > 0,
            ;
        }
    } else {
        let p2 = pow2((e2 - 1) as nat);
        vstd::arithmetic::power2::lemma_pow2_pos((e2 - 1) as nat);
        assert((f2 + 0x80_0000) * p2 >= 0x80_0000 * p2) by (nonlinear_arith)
            requires
                f2 >= 0,
                p2 > 0,
        ;
        if e1 <= 0 {
            assert(p2 >= 1);
        } else {
            let p1 = pow2((e1 - 1) as nat);
            vstd::arithmetic::power2::lemma_pow2_pos((e1 - 1) as nat);
            assert(p2 >= 2 * p1) by {
                vstd::arithmetic::power2::lemma_pow2_unfold(e1 as nat);
                if e1 < e2 - 1 {
                    vstd::arithmetic::power2::lemma_pow2_strictly_increases(
                        e1 as nat,
                        (e2 - 1) as nat,
                    );
                }
            }
            assert((f1 + 0x80_0000) * p1 < 0x80_0000 * p2) by (nonlinear_arith)
                requires
                    f1 < 0x80_0000,
                    p1 > 0,
                    p2 >= 2 * p1,
            ;
        }
    }
}

/// Order of two binary32 values.
pub open spec fn float_order(a: Float32, b: Float32) -> Option<Ordering> {
    if a.is_nan() || b.is_nan() {
        None
    } else if a.rank() < b.rank() {
        Some(Ordering::Less)
    } else if a.rank() == b.rank() {
        Some(Ordering::Equal)
    } else {
        Some(Ordering::Greater)
    }
}

/// Up to two binades a magnitude stands for itself, and from there on each next
/// exponent doubles the number.
pub proof fn law_exponent_doubles(magnitude: int)
    requires
        0 <= magnitude,
    ensures
        magnitude <= 0x100_0000 ==> magnitude_units(magnitude) == magnitude,
        magnitude >= 0x80_0000 ==> magnitude_units(magnitude + 0x80_0000) == 2 * magnitude_units(
            magnitude,
        ),
{
    vstd::arithmetic::power2::lemma2_to64();
    let e = magnitude / 0x80_0000;
    let f = magnitude % 0x80_0000;
    if magnitude == 0x100_0000 {
        assert(e == 2 && f == 0);
        assert(pow2(1) == 2);
    } else if 0x80_0000 <= magnitude < 0x100_0000 {
        assert(e == 1 && f == magnitude - 0x80_0000);
        assert(pow2(0) == 1);
        let x = (f + 0x80_0000) as nat;
        assert(x * 1 == x);
    } else if magnitude < 0x80_0000 {
        assert(e == 0 && f == magnitude);
    }
    if magnitude >= 0x80_0000 {
        let p = pow2((e - 1) as nat);
        vstd::arithmetic::power2::lemma_pow2_unfold(e as nat);
        assert((f + 0x80_0000) * (2 * p) == 2 * ((f + 0x80_0000) * p)) by (nonlinear_arith);
        assert((magnitude + 0x80_0000) / 0x80_0000 == e + 1);
        assert((magnitude + 0x80_0000) % 0x80_0000 == f);
    }
}

/// Finite values are compared as the numbers that they stand for. Nothing is
/// compared with NaN, and everything else lies between the two infinities.
pub proof fn law_order_is_by_value(a: Float32, b: Float32)
    ensures
        a.is_nan() || b.is_nan() ==> !a.at_least(b),
        !a.is_nan() && !b.is_nan() && !a.is_infinite() && !b.is_infinite() ==> (a.at_least(b)
            <==> a.signed_units() >= b.signed_units()),
        !a.is_nan() && !b.is_nan() && a.is_infinite() ==> (a.at_least(b) <==> !a.negative() || (
        b.is_infinite() && b.negative())),
        !a.is_nan() && !b.is_nan() && b.is_infinite() ==> (a.at_least(b) <==> b.negative() || (
        a.is_infinite() && !a.negative())),
        !a.is_nan() && !b.is_nan() ==> (a.at_least(b) <==> a.rank() >= b.rank()),
{
    assert(0int / 0x80_0000 == 0 && 0int % 0x80_0000 == 0);
    let m = a.magnitude();
    let n = b.magnitude();
    if m < n {
        law_units_follow_magnitude(m, n);
    } else if n < m {
        law_units_follow_magnitude(n, m);
    }
    if m > 0 {
        law_units_follow_magnitude(0, m);
    }
    if n > 0 {
        law_units_follow_magnitude(0, n);
    }
}

/// Equality and order agree with each other: two values that are not NaN are in
/// exactly one of the three relations.
pub proof fn law_three_relations(a: Float32, b: Float32)
    ensures
        float_order(a, b) is None <==> a.is_nan() || b.is_nan(),
        float_order(a, b) == Some(Ordering::Less) <==> b.at_least(a) && !a.at_least(b),
        float_order(a, b) == Some(Ordering::Equal) <==> a.at_least(b) && b.at_least(a),
        float_order(a, b) == Some(Ordering::Greater) <==> a.at_least(b) && !b.at_least(a),
{
}

impl PartialEqSpecImpl for Float32 {
    open spec fn obeys_eq_spec() -> bool {
        true
    }

    open spec fn eq_spec(&self, other: &Self) -> bool {
        !self.is_nan() && !other.is_nan() && self.rank() == other.rank()
    }
}

impl PartialEq for Float32 {
    fn eq(&self, other: &Self) -> (r: bool) {
        let a: u32 = self.bits % 0x8000_0000;
        let b: u32 = other.bits % 0x8000_0000;
        a <= 0x7f80_0000 && b <= 0x7f80_0000 && (self.bits == other.bits || (a == 0 && b == 0))
    }
}

impl PartialOrdSpecImpl for Float32 {
    open spec fn obeys_partial_cmp_spec() -> bool {
        true
    }

    open spec fn partial_cmp_spec(&self, other: &Self) -> Option<Ordering> {
        float_order(*self, *other)
    }
}

impl PartialOrd for Float32 {
    fn partial_cmp(&self, other: &Self) -> (r: Option<Ordering>) {
        if !self.ge_value(*other) && !other.ge_value(*self) {
            None
        } else if !self.ge_value(*other) {
            Some(Ordering::Less)
        } else if other.ge_value(*self) {
            Some(Ordering::Equal)
        } else {
            Some(Ordering::Greater)
        }
    }
}

impl Float32 {
    /// Tests whether this value is at least `other`.
    pub fn ge_value(&self, other: Float32) -> (r: bool)
        ensures
            r == self.at_least(other),
    {
        let a: u32 = self.bits % 0x8000_0000;
        let b: u32 = other.bits % 0x8000_0000;
        if a > 0x7f80_0000 || b > 0x7f80_0000 {
            return false;
        }
        if self.bits < 0x8000_0000 {
            other.bits >= 0x8000_0000 || a >= b
        } else if other.bits < 0x8000_0000 {
            a == 0 && b == 0
        } else {
            a <= b
        }
    }

    /// Tests whether this value lies between two others, both included.
    pub fn within(&self, low: Float32, high: Float32) -> (r: bool)
        ensures
            r == (self.at_least(low) && high.at_least(*self)),
    {
        self.ge_value(low) && high.ge_value(*self)
    }
}

impl Float64 {
    pub open spec fn negative(self) -> bool {
        self.bits >= 0x8000_0000_0000_0000
    }

    /// The bit pattern without its sign.
    pub open spec fn magnitude(self) -> int {
        self.bits as int % 0x8000_0000_0000_0000
    }

    pub open spec fn is_nan(self) -> bool {
        self.magnitude() > 0x7ff0_0000_0000_0000
    }

    /// An integer that orders the values other than NaN; both zeros are 0.
    pub open spec fn rank(self) -> int {
        if self.negative() {
            -self.magnitude()
        } else {
            self.magnitude()
        }
    }
}

impl PartialEqSpecImpl for Float64 {
    open spec fn obeys_eq_spec() -> bool {
        true
    }

    open spec fn eq_spec(&self, other: &Self) -> bool {
        !self.is_nan() && !other.is_nan() && self.rank() == other.rank()
    }
}

impl PartialEq for Float64 {
    fn eq(&self, other: &Self) -> (r: bool) {
        let a: u64 = self.bits % 0x8000_0000_0000_0000;
        let b: u64 = other.bits % 0x8000_0000_0000_0000;
        a <= 0x7ff0_0000_0000_0000 && b <= 0x7ff0_0000_0000_0000 && (self.bits == other.bits || (a
            == 0 && b == 0))
    }
}

} // verus!
