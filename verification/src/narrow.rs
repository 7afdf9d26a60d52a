//! Conversion of binary64 values to binary32.

use vstd::arithmetic::power2::{
    lemma2_to64, lemma2_to64_rest, lemma_pow2_adds, lemma_pow2_pos,
    lemma_pow2_strictly_increases, pow2,
};
use vstd::prelude::*;

use crate::float::{law_units_follow_magnitude, magnitude_units, Float32, Float64};
use crate::rounding::{
    apart, excess, law_round24_is_nearest, lemma_excess, lemma_excess_is,
    lemma_multiple_is_no_nearer, lemma_round_near, round_to, shifted,
};

verus! {

impl Float64 {
    pub open spec fn is_infinite(self) -> bool {
        self.magnitude() == 0x7ff0_0000_0000_0000
    }

    /// Absolute value of a finite number, in units of the smallest positive
    /// one. There are `pow2(925)` such units in the smallest positive binary32
    /// number.
    pub open spec fn units(self) -> nat {
        let exponent = self.magnitude() / 0x10_0000_0000_0000;
        let fraction = self.magnitude() % 0x10_0000_0000_0000;
        if exponent <= 0 {
            fraction as nat
        } else {
            ((fraction + 0x10_0000_0000_0000) as nat) * pow2((exponent - 1) as nat)
        }
    }
}

/// Distance of the binary32 numbers around a number of binary64 units.
pub open spec fn single_unit(x: nat) -> nat {
    pow2(
        if excess(x) > 925 {
            excess(x)
        } else {
            925
        },
    )
}

/// The nearest number with the precision of binary32, the even one of two.
pub open spec fn single_units(x: nat) -> nat {
    round_to(x, single_unit(x))
}

/// Whether a binary32 value is what a binary64 one is rounded to. Numbers from
/// `pow2(1202)` units on are too large for binary32.
pub open spec fn narrows_to(wide: Float64, single: Float32) -> bool {
    if wide.is_nan() {
        single.is_nan()
    } else {
        &&& single.negative() == wide.negative()
        &&& if wide.is_infinite() || single_units(wide.units()) >= pow2(1202) {
            single.is_infinite()
        } else {
            &&& !single.is_nan()
            &&& !single.is_infinite()
            &&& single.units() * pow2(925) == single_units(wide.units())
        }
    }
}

/// Rounding leaves no choice: apart from the different forms of NaN, there is
/// one binary32 value that a binary64 value is rounded to.
pub proof fn law_narrowing_is_unique(wide: Float64, a: Float32, b: Float32)
    requires
        !wide.is_nan(),
        narrows_to(wide, a),
        narrows_to(wide, b),
    ensures
        a == b,
{
    if !a.is_infinite() {
        lemma_pow2_pos(925);
        assert(a.units() == b.units()) by (nonlinear_arith)
            requires
                a.units() * pow2(925) == b.units() * pow2(925),
                pow2(925) > 0,
        ;
        if a.magnitude() < b.magnitude() {
            law_units_follow_magnitude(a.magnitude(), b.magnitude());
        }
        if b.magnitude() < a.magnitude() {
            law_units_follow_magnitude(b.magnitude(), a.magnitude());
        }
    }
    assert(a.bits == b.bits);
}

/// Scaling the number and the unit scales the rounded number.
proof fn lemma_round_to_scale(x: nat, unit: nat, p: nat)
    requires
        unit > 0,
        p > 0,
    ensures
        round_to(x * p, unit * p) == round_to(x, unit) * p,
{
    let q = x / unit;
    let r = x % unit;
    lemma_round_near(x, unit);
    assert(x * p == q * (unit * p) + r * p) by (nonlinear_arith)
        requires
            x == q * unit + r,
    ;
    assert(0 <= r * p < unit * p) by (nonlinear_arith)
        requires
            0 <= r < unit,
            p > 0,
    ;
    vstd::arithmetic::div_mod::lemma_fundamental_div_mod_converse(
        (x * p) as int,
        (unit * p) as int,
        q as int,
        (r * p) as int,
    );
    assert(2 * r > unit <==> 2 * (r * p) > unit * p) by (nonlinear_arith)
        requires
            p > 0,
    ;
    assert(2 * r == unit <==> 2 * (r * p) == unit * p) by (nonlinear_arith)
        requires
            p > 0,
    ;
    assert((q + 1) * (unit * p) == ((q + 1) * unit) * p) by (nonlinear_arith);
    assert(q * (unit * p) == (q * unit) * p) by (nonlinear_arith);
}

/// A significand of 53 bits at some power of two.
proof fn lemma_wide_excess(m: nat, k: nat)
    requires
        0x10_0000_0000_0000 <= m < 0x20_0000_0000_0000,
    ensures
        excess(m * pow2(k)) == 29 + k,
{
    lemma2_to64();
    lemma_pow2_adds(29, k);
    lemma_pow2_pos(k);
    let p = pow2(k);
    assert(pow2(29 + k) == 0x2000_0000 * p);
    assert(0x80_0000 * (0x2000_0000 * p) <= m * p < 0x100_0000 * (0x2000_0000 * p))
        by (nonlinear_arith)
        requires
            0x10_0000_0000_0000 <= m < 0x20_0000_0000_0000,
            p > 0,
    ;
    lemma_excess_is(m * p, 29 + k);
}

/// A number below half the smallest binary32 number is rounded to zero.
proof fn lemma_too_small(x: nat)
    requires
        x < pow2(924),
    ensures
        single_units(x) == 0,
{
    lemma_excess(x);
    lemma_pow2_adds(1, 924);
    lemma2_to64();
    lemma_pow2_pos(924);
    if excess(x) > 925 {
        lemma_pow2_strictly_increases(925, excess(x));
        assert(0x80_0000 * pow2(excess(x)) > pow2(925)) by (nonlinear_arith)
            requires
                pow2(excess(x)) > pow2(925),
        ;
    }
    let unit = pow2(925);
    vstd::arithmetic::div_mod::lemma_fundamental_div_mod_converse(
        x as int,
        unit as int,
        0,
        x as int,
    );
    assert(0 * unit == 0);
}

/// How often `2^shift` goes into a number, rounded to nearest, ties to even.
fn round_quotient(x: u64, shift: u64) -> (q: u64)
    requires
        1 <= shift <= 54,
        x < 0x20_0000_0000_0000,
    ensures
        q * pow2(shift as nat) == round_to(x as nat, pow2(shift as nat)),
        x / (pow2(shift as nat) as u64) <= q <= x / (pow2(shift as nat) as u64) + 1,
        pow2(shift as nat) <= 0x40_0000_0000_0000,
        pow2(shift as nat) > 0,
{
    proof {
        lemma2_to64();
        lemma2_to64_rest();
        if shift < 54 {
            lemma_pow2_strictly_increases(shift as nat, 54);
        }
        vstd::bits::lemma_u64_shl_is_mul(1, shift);
        lemma_pow2_pos(shift as nat);
        lemma_pow2_adds(1, (shift - 1) as nat);
    }
    let unit: u64 = 1u64 << shift;
    let kept: u64 = x / unit;
    let lost: u64 = x % unit;
    if lost > unit / 2 || (2 * lost == unit && kept % 2 == 1) {
        kept + 1
    } else {
        kept
    }
}

/// A binary32 value with a sign and the rest of its bits.
fn signed(negative: bool, magnitude: u32) -> (r: Float32)
    requires
        magnitude < 0x8000_0000,
    ensures
        r.negative() == negative,
        r.magnitude() == magnitude,
{
    if negative {
        Float32 { bits: magnitude + 0x8000_0000 }
    } else {
        Float32 { bits: magnitude }
    }
}

/// The packed form of a significand of 24 bits, or of the next power of two,
/// stands for that many units at its power of two.
proof fn lemma_packed_units(exponent: int, q: int)
    requires
        exponent >= 1,
        0x80_0000 <= q <= 0x100_0000,
    ensures
        magnitude_units((exponent - 1) * 0x80_0000 + q) == q * pow2((exponent - 1) as nat),
{
    let magnitude = (exponent - 1) * 0x80_0000 + q;
    if q < 0x100_0000 {
        assert(magnitude / 0x80_0000 == exponent && magnitude % 0x80_0000 == q - 0x80_0000);
    } else {
        assert(magnitude / 0x80_0000 == exponent + 1 && magnitude % 0x80_0000 == 0);
        lemma_pow2_adds(1, (exponent - 1) as nat);
        lemma2_to64();
        let p = pow2((exponent - 1) as nat);
        assert(0x80_0000 * (2 * p) == 0x100_0000 * p) by (nonlinear_arith);
    }
}

/// A binary32 number as a number of 24 bits at a power of two.
proof fn lemma_single_form(single: Float32)
    requires
        !single.is_nan(),
        !single.is_infinite(),
    ensures
        exists|a: nat, b: nat|
            a < 0x100_0000 && b >= 925 && #[trigger] shifted(a, b) == single.units() * pow2(925),
{
    let m = single.magnitude();
    let e = m / 0x80_0000;
    let f = m % 0x80_0000;
    lemma2_to64();
    if e <= 0 {
        assert(shifted(f as nat, 925) == single.units() * pow2(925));
    } else {
        let a = (f + 0x80_0000) as nat;
        let k = (e - 1) as nat;
        lemma_pow2_adds(k, 925);
        let p = pow2(k);
        let q = pow2(925);
        assert(a * (p * q) == (a * p) * q) by (nonlinear_arith);
        assert(shifted(a, k + 925) == single.units() * pow2(925));
    }
}

/// No finite binary32 value is nearer to a binary64 value than the one that it
/// is rounded to.
pub proof fn law_narrowing_is_nearest(wide: Float64, single: Float32, other: Float32)
    requires
        narrows_to(wide, single),
        !single.is_nan(),
        !single.is_infinite(),
        !other.is_nan(),
        !other.is_infinite(),
    ensures
        single.negative() == wide.negative(),
        apart(single.units() * pow2(925), wide.units()) <= apart(
            other.units() * pow2(925),
            wide.units(),
        ),
        other.units() * pow2(925) == wide.units() && other.negative() == wide.negative() ==> single
            == other,
{
    let x = wide.units();
    let y = other.units() * pow2(925);
    lemma_single_form(other);
    let (a, b) = choose|a: nat, b: nat|
        a < 0x100_0000 && b >= 925 && #[trigger] shifted(a, b) == y;
    lemma_pow2_pos(925);
    if excess(x) > 925 {
        law_round24_is_nearest(x, a, b);
    } else {
        lemma_pow2_adds(925, (b - 925) as nat);
        let p = pow2((b - 925) as nat);
        let u = pow2(925);
        let c = a * p;
        assert(a * (u * p) == c * u) by (nonlinear_arith)
            requires
                c == a * p,
        ;
        lemma_multiple_is_no_nearer(x, u, c);
    }
    if y == x && other.negative() == wide.negative() {
        assert(single.units() * pow2(925) == y);
        assert(narrows_to(wide, other));
        law_narrowing_is_unique(wide, single, other);
    }
}

/// A binary64 number is too large for binary32 from half a unit below
/// `pow2(1202)` on.
pub proof fn law_narrowing_overflows(wide: Float64, single: Float32)
    requires
        !wide.is_nan(),
        narrows_to(wide, single),
    ensures
        !single.is_nan(),
        single.is_infinite() <==> wide.is_infinite() || wide.units() >= 0x1ff_ffff * pow2(1177),
{
    let x = wide.units();
    let h = pow2(1177);
    let u = pow2(1178);
    lemma_pow2_pos(1177);
    lemma2_to64();
    lemma_pow2_adds(1, 1177);
    lemma_pow2_adds(24, 1178);
    assert(pow2(24) == 0x100_0000);
    assert(u == 2 * h);
    assert(pow2(1202) == 0x100_0000 * u);
    lemma_excess(x);
    let e = excess(x);
    let unit = single_unit(x);
    lemma_pow2_pos(925);
    lemma_round_near(x, unit);
    let q = x / unit;
    let rest = x % unit;
    assert((q + 1) * unit == q * unit + unit) by (nonlinear_arith);
    if 0x80_0000 * u <= x < 0x100_0000 * u {
        lemma_excess_is(x, 1178);
        assert(unit == u);
        assert(q < 0x100_0000) by (nonlinear_arith)
            requires
                q * u <= x,
                x < 0x100_0000 * u,
                u > 0,
        ;
        if x >= 0x1ff_ffff * h {
            assert(q >= 0xff_ffff) by (nonlinear_arith)
                requires
                    x < q * u + u,
                    x >= 0x1ff_ffff * h,
                    u == 2 * h,
                    h > 0,
            ;
            assert(q == 0xff_ffff);
            assert(rest >= h);
            assert((q + 1) * u == 0x100_0000 * u);
        } else {
            if q == 0xff_ffff {
                assert(rest < h);
                assert(q * u < 0x100_0000 * u) by (nonlinear_arith)
                    requires
                        q == 0xff_ffff,
                        u > 0,
                ;
            } else {
                assert((q + 1) * u <= 0xff_ffff * u) by (nonlinear_arith)
                    requires
                        q + 1 <= 0xff_ffff,
                ;
                assert(0xff_ffff * u < 0x100_0000 * u) by (nonlinear_arith)
                    requires
                        u > 0,
                ;
            }
        }
    } else if x >= 0x100_0000 * u {
        if e <= 1178 {
            if e < 1178 {
                lemma_pow2_strictly_increases(e, 1178);
            }
            assert(0x100_0000 * pow2(e) <= 0x100_0000 * u);
            assert(false);
        }
        lemma_pow2_strictly_increases(1178, e);
        if 925 < e {
            assert(unit == pow2(e));
        }
        assert(q >= 0x80_0000) by (nonlinear_arith)
            requires
                0x80_0000 * unit <= x,
                x < q * unit + unit,
        ;
        lemma_pow2_adds(1, (e - 1) as nat);
        if 1178 < e - 1 {
            lemma_pow2_strictly_increases(1178, (e - 1) as nat);
        }
        assert(unit >= 2 * u);
        assert(q * unit >= 0x100_0000 * u) by (nonlinear_arith)
            requires
                q >= 0x80_0000,
                unit >= 2 * u,
                u > 0,
        ;
        assert(x >= 0x1ff_ffff * h);
    } else {
        assert(x < 0x80_0000 * u);
        if e >= 1178 {
            if e > 1178 {
                lemma_pow2_strictly_increases(1178, e);
            }
            assert(0x80_0000 * pow2(e) >= 0x80_0000 * u);
            assert(false);
        }
        lemma_pow2_strictly_increases(e, 1178);
        lemma_pow2_strictly_increases(925, 1178);
        assert(unit < u);
        assert(round_to(x, unit) <= x + unit);
        assert(round_to(x, unit) < 0x100_0000 * u);
        assert(x < 0x1ff_ffff * h);
    }
}

/// Rounds to the nearest binary32 value, ties to even.
pub fn narrow(wide: Float64) -> (r: Float32)
    ensures
        narrows_to(wide, r),
{
    let magnitude: u64 = wide.bits % 0x8000_0000_0000_0000;
    let negative: bool = wide.bits >= 0x8000_0000_0000_0000;
    if magnitude > 0x7ff0_0000_0000_0000 {
        return signed(negative, 0x7fc0_0000);
    }
    if magnitude == 0x7ff0_0000_0000_0000 {
        return signed(negative, 0x7f80_0000);
    }
    let exponent: u64 = magnitude / 0x10_0000_0000_0000;
    let fraction: u64 = magnitude % 0x10_0000_0000_0000;
    let ghost x = wide.units();
    if exponent < 872 {
        proof {
            if exponent == 0 {
                lemma2_to64_rest();
                lemma_pow2_strictly_increases(52, 924);
            } else {
                let m = (fraction + 0x10_0000_0000_0000) as nat;
                let p = pow2((exponent - 1) as nat);
                lemma_pow2_pos((exponent - 1) as nat);
                lemma_pow2_adds(53, (exponent - 1) as nat);
                lemma2_to64_rest();
                assert(m * p < 0x20_0000_0000_0000 * p) by (nonlinear_arith)
                    requires
                        m < 0x20_0000_0000_0000,
                        p > 0,
                ;
                lemma_pow2_strictly_increases((53 + exponent - 1) as nat, 924);
            }
            lemma_too_small(x);
            lemma_pow2_pos(1202);
            assert(0 * pow2(925) == 0);
        }
        return signed(negative, 0);
    }
    let significand: u64 = fraction + 0x10_0000_0000_0000;
    let ghost m = significand as nat;
    let ghost k = (exponent - 1) as nat;
    proof {
        lemma_pow2_pos(k);
        lemma_wide_excess(m, k);
        lemma2_to64();
        lemma2_to64_rest();
    }
    if exponent < 897 {
        let shift: u64 = 926 - exponent;
        let q: u64 = round_quotient(significand, shift);
        proof {
            let u = pow2(shift as nat);
            lemma_pow2_adds(shift as nat, k);
            lemma_round_to_scale(m, u, pow2(k));
            assert((q * u) * pow2(k) == q * (u * pow2(k))) by (nonlinear_arith);
            assert(single_units(x) == q * pow2(925));
            if shift > 30 {
                lemma_pow2_strictly_increases(30, shift as nat);
            }
            assert(significand / (u as u64) <= 0x7f_ffff) by (nonlinear_arith)
                requires
                    significand < 0x20_0000_0000_0000,
                    u >= 0x4000_0000,
                    u <= 0x40_0000_0000_0000,
            ;
            assert(q <= 0x80_0000);
            assert(magnitude_units(q as int) == q) by {
                if q == 0x80_0000 {
                    assert(0x80_0000int / 0x80_0000 == 1 && 0x80_0000int % 0x80_0000 == 0);
                    assert(pow2(0) == 1);
                    assert((0 + 0x80_0000) as nat * pow2(0) == 0x80_0000);
                } else {
                    assert(q as int / 0x80_0000 == 0 && q as int % 0x80_0000 == q);
                }
            }
            lemma_pow2_adds(23, 925);
            lemma_pow2_strictly_increases(948, 1202);
            assert(q * pow2(925) <= 0x80_0000 * pow2(925)) by (nonlinear_arith)
                requires
                    q <= 0x80_0000,
            ;
        }
        return signed(negative, q as u32);
    }
    let q: u64 = round_quotient(significand, 29);
    proof {
        let u = pow2(29);
        lemma_pow2_adds(29, k);
        lemma_round_to_scale(m, u, pow2(k));
        assert((q * u) * pow2(k) == q * (u * pow2(k))) by (nonlinear_arith);
        assert(single_units(x) == q * pow2(29 + k));
        assert(0x80_0000 <= q <= 0x100_0000);
    }
    let packed: u64 = (exponent - 897) * 0x80_0000 + q;
    proof {
        lemma_packed_units((exponent - 896) as int, q as int);
        let p = pow2((exponent - 897) as nat);
        lemma_pow2_adds((exponent - 897) as nat, 925);
        assert((q * p) * pow2(925) == q * (p * pow2(925))) by (nonlinear_arith);
    }
    if packed >= 0x7f80_0000 {
        proof {
            lemma_pow2_adds(23, 1179);
            lemma_pow2_adds(24, 1178);
            if exponent >= 1151 {
                if exponent > 1151 {
                    lemma_pow2_strictly_increases(1179, 29 + k);
                }
                assert(q * pow2(29 + k) >= 0x80_0000 * pow2(1179)) by (nonlinear_arith)
                    requires
                        q >= 0x80_0000,
                        pow2(29 + k) >= pow2(1179),
                ;
            }
        }
        signed(negative, 0x7f80_0000)
    } else {
        proof {
            lemma_pow2_adds(24, 1178);
            lemma_pow2_pos(1178);
            if exponent == 1150 {
                assert(q * pow2(1178) < 0x100_0000 * pow2(1178)) by (nonlinear_arith)
                    requires
                        q < 0x100_0000,
                        pow2(1178) > 0,
                ;
            } else {
                lemma_pow2_strictly_increases(29 + k, 1178);
                assert(q * pow2(29 + k) < 0x100_0000 * pow2(1178)) by (nonlinear_arith)
                    requires
                        0x80_0000 <= q <= 0x100_0000,
                        0 < pow2(29 + k) < pow2(1178),
                ;
            }
        }
        signed(negative, packed as u32)
    }
}

} // verus!
