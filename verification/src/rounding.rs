//! Rounding of naturals to 24 significant bits, to nearest with ties to even.

use vstd::arithmetic::power2::{lemma_pow2_pos, lemma_pow2_unfold, pow2};
use vstd::prelude::*;

verus! {

/// Number of bits that `x` has beyond 24.
pub open spec fn excess(x: nat) -> nat
    decreases x,
{
    if x < 0x100_0000 {
        0
    } else {
        1 + excess(x / 2)
    }
}

/// `x` rounded to the unit of its last kept bit.
pub open spec fn round24(x: nat) -> nat {
    round_to(x, pow2(excess(x)))
}

/// The multiple of `unit` nearest to `x`, the even one of two equally near.
pub open spec fn round_to(x: nat, unit: nat) -> nat {
    let kept = x / unit;
    let lost = x % unit;
    if 2 * lost > unit || (2 * lost == unit && kept % 2 == 1) {
        (kept + 1) * unit
    } else {
        kept * unit
    }
}

/// A number with an excess fills its 24 kept bits.
pub proof fn lemma_excess(x: nat)
    ensures
        x < 0x100_0000 * pow2(excess(x)),
        excess(x) > 0 ==> 0x80_0000 * pow2(excess(x)) <= x,
        pow2(excess(x)) > 0,
    decreases x,
{
    lemma_pow2_pos(excess(x));
    if x < 0x100_0000 {
        vstd::arithmetic::power2::lemma2_to64();
    } else {
        lemma_excess(x / 2);
        lemma_pow2_unfold(excess(x));
        let half = pow2(excess(x / 2));
        assert(pow2(excess(x)) == 2 * half);
        if excess(x / 2) == 0 {
            vstd::arithmetic::power2::lemma2_to64();
        }
    }
}

/// The excess is told by the power of two that fills the kept bits.
pub proof fn lemma_excess_is(x: nat, k: nat)
    requires
        0x80_0000 * pow2(k) <= x < 0x100_0000 * pow2(k),
    ensures
        excess(x) == k,
    decreases k,
{
    if k == 0 {
        vstd::arithmetic::power2::lemma2_to64();
    } else {
        lemma_pow2_unfold(k);
        lemma_pow2_pos((k - 1) as nat);
        lemma_excess_is(x / 2, (k - 1) as nat);
    }
}

/// The rounded number lies within half a unit.
pub proof fn lemma_round_near(x: nat, unit: nat)
    requires
        unit > 0,
    ensures
        round_to(x, unit) <= x + unit,
        x <= round_to(x, unit) + unit,
        (x / unit) * unit <= round_to(x, unit) <= (x / unit + 1) * unit,
        x == (x / unit) * unit + x % unit,
        x % unit < unit,
{
    let q = x / unit;
    assert(x == q * unit + x % unit && x % unit < unit) by (nonlinear_arith)
        requires
            unit > 0,
            q == x / unit,
    ;
    assert((q + 1) * unit == q * unit + unit) by (nonlinear_arith);
}

proof fn lemma_round_to_one(x: nat)
    ensures
        round_to(x, 1) == x,
{
    assert(x / 1 == x && x % 1 == 0);
    let kept = x / 1;
    assert(kept * 1 == kept);
}

/// Twice a number rounds to twice its rounding.
pub proof fn lemma_round24_double(x: nat)
    ensures
        round24(2 * x) == 2 * round24(x),
{
    let u = pow2(excess(x));
    lemma_excess(x);
    if 2 * x < 0x100_0000 {
        vstd::arithmetic::power2::lemma2_to64();
        lemma_round_to_one(2 * x);
        lemma_round_to_one(x);
    } else {
        assert((2 * x) / 2 == x);
        lemma_pow2_unfold(excess(2 * x));
        assert(pow2(excess(2 * x)) == 2 * u);
        let q = x / u;
        let r = x % u;
        lemma_round_near(x, u);
        assert((2 * x) / (2 * u) == q && (2 * x) % (2 * u) == 2 * r) by (nonlinear_arith)
            requires
                x == q * u + r,
                r < u,
                u > 0,
        {
            assert(2 * x == q * (2 * u) + 2 * r);
            vstd::arithmetic::div_mod::lemma_fundamental_div_mod_converse(
                2 * x as int,
                2 * u as int,
                q as int,
                2 * r as int,
            );
        }
        assert((q + 1) * (2 * u) == 2 * ((q + 1) * u)) by (nonlinear_arith);
        assert(q * (2 * u) == 2 * (q * u)) by (nonlinear_arith);
        assert(round_to(2 * x, 2 * u) == 2 * round_to(x, u));
    }
}

/// Scaling by a power of two commutes with rounding.
pub proof fn lemma_round24_scale(x: nat, k: nat)
    ensures
        round24(x * pow2(k)) == round24(x) * pow2(k),
    decreases k,
{
    if k == 0 {
        vstd::arithmetic::power2::lemma2_to64();
    } else {
        lemma_pow2_unfold(k);
        let p = pow2((k - 1) as nat);
        lemma_round24_scale(x, (k - 1) as nat);
        lemma_round24_double(x * p);
        assert(x * (2 * p) == 2 * (x * p)) by (nonlinear_arith);
        assert(round24(x) * (2 * p) == 2 * (round24(x) * p)) by (nonlinear_arith);
    }
}

/// A number of at most 24 bits is its own rounding.
pub proof fn lemma_round24_small(x: nat)
    requires
        x <= 0x100_0000,
    ensures
        round24(x) == x,
{
    vstd::arithmetic::power2::lemma2_to64();
    if x < 0x100_0000 {
        lemma_round_to_one(x);
    } else {
        assert(excess(x / 2) == 0);
        assert(excess(x) == 1);
        assert(pow2(1) == 2);
        assert(x / 2 == 0x80_0000 && x % 2 == 0);
        assert(round_to(x, 2) == x);
    }
}

/// Rounding a power of two, or a small multiple of one, changes nothing.
pub proof fn lemma_round24_exact(x: nat, k: nat)
    requires
        x <= 0x100_0000,
    ensures
        round24(x * pow2(k)) == x * pow2(k),
{
    lemma_round24_small(x);
    lemma_round24_scale(x, k);
}

/// What was rounded is its own rounding.
pub proof fn lemma_round24_again(x: nat)
    ensures
        round24(round24(x)) == round24(x),
{
    let k = excess(x);
    let u = pow2(k);
    lemma_excess(x);
    lemma_round_near(x, u);
    let q = x / u;
    assert(q < 0x100_0000) by (nonlinear_arith)
        requires
            q * u <= x,
            x < 0x100_0000 * u,
            u > 0,
    ;
    if round24(x) == q * u {
        lemma_round24_exact(q, k);
    } else {
        lemma_round24_exact(q + 1, k);
    }
}

proof fn lemma_round24_step(x: nat)
    ensures
        round24(x) <= round24(x + 1),
{
    let u = pow2(excess(x));
    let y = x + 1;
    lemma_excess(x);
    lemma_excess(y);
    lemma_round_near(x, u);
    let q = x / u;
    let r = x % u;
    if y == 0x100_0000 * u {
        assert(y == 0x100_0000 * u);
        lemma_round24_exact(0x100_0000, excess(x));
        assert(q + 1 <= 0x100_0000) by (nonlinear_arith)
            requires
                q * u <= x,
                x < 0x100_0000 * u,
                u > 0,
        ;
        assert((q + 1) * u <= 0x100_0000 * u) by (nonlinear_arith)
            requires
                q + 1 <= 0x100_0000,
        ;
    } else {
        if excess(x) == 0 {
            vstd::arithmetic::power2::lemma2_to64();
            assert(excess(y) == 0);
        } else {
            lemma_excess_is(y, excess(x));
        }
        lemma_round_near(y, u);
        if r + 1 < u {
            vstd::arithmetic::div_mod::lemma_fundamental_div_mod_converse(
                y as int,
                u as int,
                q as int,
                (r + 1) as int,
            );
            assert(q * u <= (q + 1) * u) by (nonlinear_arith);
        } else {
            assert((q + 1) * u == q * u + u) by (nonlinear_arith);
            vstd::arithmetic::div_mod::lemma_fundamental_div_mod_converse(
                y as int,
                u as int,
                (q + 1) as int,
                0,
            );
        }
    }
}

/// Rounding keeps order.
pub proof fn law_round24_monotone(x: nat, y: nat)
    requires
        x <= y,
    ensures
        round24(x) <= round24(y),
    decreases y - x,
{
    if x < y {
        law_round24_monotone(x, (y - 1) as nat);
        lemma_round24_step((y - 1) as nat);
    }
}

/// `a` with `b` zero bits behind.
pub open spec fn shifted(a: nat, b: nat) -> nat {
    a * pow2(b)
}

/// How far two numbers lie apart.
pub open spec fn apart(a: nat, b: nat) -> int {
    if a <= b {
        b - a
    } else {
        a - b
    }
}

/// The rounding of a number has at most 24 significant bits, and no number with
/// at most 24 significant bits is nearer. Of two that are equally near it is the
/// one with the even last bit.
pub proof fn law_round24_is_nearest(x: nat, a: nat, b: nat)
    requires
        a <= 0x100_0000,
    ensures
        exists|c: nat, d: nat| c <= 0x100_0000 && round24(x) == #[trigger] shifted(c, d),
        apart(round24(x), x) <= apart(shifted(a, b), x),
        apart(round24(x), x) == apart(shifted(a, b), x) && round24(x) != shifted(a, b)
            ==> round24(x) as int % (2 * apart(round24(x), shifted(a, b))) == 0,
{
    let e = excess(x);
    let u = pow2(e);
    lemma_excess(x);
    lemma_round_near(x, u);
    let q = x / u;
    let rest = x % u;
    let r = round24(x);
    let y = shifted(a, b);
    assert((q + 1) * u == q * u + u) by (nonlinear_arith);
    assert(q < 0x100_0000) by (nonlinear_arith)
        requires
            q * u <= x,
            x < 0x100_0000 * u,
            u > 0,
    ;
    if r == q * u {
        assert(r == shifted(q, e));
    } else {
        assert(r == shifted(q + 1, e));
    }
    if e == 0 {
        vstd::arithmetic::power2::lemma2_to64();
        assert(u == 1);
        assert(rest == 0);
        assert(q * 1 == q);
        assert(r == x);
    } else {
        let low = 0x80_0000 * u;
        assert(q >= 0x80_0000) by (nonlinear_arith)
            requires
                low <= x,
                low == 0x80_0000 * u,
                x < q * u + u,
        ;
        assert(low <= q * u) by (nonlinear_arith)
            requires
                q >= 0x80_0000,
                low == 0x80_0000 * u,
        ;
        if b >= e {
            vstd::arithmetic::power2::lemma_pow2_adds(e, (b - e) as nat);
            let c = a * pow2((b - e) as nat);
            let p = pow2((b - e) as nat);
            assert(y == c * u) by (nonlinear_arith)
                requires
                    y == a * (u * p),
                    c == a * p,
            ;
            lemma_multiple_is_no_nearer(x, u, c);
        } else {
            let p = pow2(b);
            let d = pow2((e - b) as nat);
            vstd::arithmetic::power2::lemma_pow2_adds(b, (e - b) as nat);
            vstd::arithmetic::power2::lemma_pow2_unfold((e - b) as nat);
            lemma_pow2_pos((e - b - 1) as nat);
            assert(y <= low) by (nonlinear_arith)
                requires
                    y == a * p,
                    a <= 0x100_0000,
                    low == 0x80_0000 * u,
                    u == p * d,
                    d >= 2,
            ;
            lemma_multiple_is_no_nearer(x, u, 0x80_0000);
            assert(apart(low, x) <= apart(y, x));
        }
    }
}

/// No multiple of the unit is nearer than the rounded number, and of two equally
/// near ones it is the even one.
pub proof fn lemma_multiple_is_no_nearer(x: nat, u: nat, c: nat)
    requires
        u > 0,
    ensures
        apart(round_to(x, u), x) <= apart(c * u, x),
        apart(round_to(x, u), x) == apart(c * u, x) && round_to(x, u) != c * u ==> round_to(
            x,
            u,
        ) as int % (2 * apart(round_to(x, u), c * u)) == 0,
{
    let q = x / u;
    let rest = x % u;
    let r = round_to(x, u);
    lemma_round_near(x, u);
    assert((q + 1) * u == q * u + u) by (nonlinear_arith);
    if c <= q {
        assert(c * u <= q * u) by (nonlinear_arith)
            requires
                c <= q,
        ;
    } else {
        assert(c * u >= (q + 1) * u) by (nonlinear_arith)
            requires
                c >= q + 1,
        ;
    }
    if apart(r, x) == apart(c * u, x) && r != c * u {
        let gap = apart(r, c * u);
        if r == q * u {
            assert(c * u == (q + 1) * u);
            assert(q % 2 == 0);
            let h = q / 2;
            assert(q == 2 * h);
            assert(r == h * (2 * u)) by (nonlinear_arith)
                requires
                    r == q * u,
                    q == 2 * h,
            ;
            vstd::arithmetic::div_mod::lemma_mod_multiples_basic(h as int, 2 * u as int);
        } else {
            assert(c * u == q * u);
            assert(q % 2 == 1);
            let h = (q + 1) / 2;
            assert(q + 1 == 2 * h);
            assert(r == h * (2 * u)) by (nonlinear_arith)
                requires
                    r == (q + 1) * u,
                    q + 1 == 2 * h,
            ;
            vstd::arithmetic::div_mod::lemma_mod_multiples_basic(h as int, 2 * u as int);
        }
    }
}

/// Rounds to 24 significant bits.
pub fn round_bits(x: u128) -> (r: u128)
    requires
        x < 0x1000_0000_0000_0000_0000_0000_0000_0000,
    ensures
        r == round24(x as nat),
        r <= 2 * x,
{
    let mut kept: u128 = x;
    let mut unit: u128 = 1;
    let ghost mut k: nat = 0;
    proof {
        vstd::arithmetic::power2::lemma2_to64();
        lemma_excess(x as nat);
    }
    while kept >= 0x100_0000
        invariant
            excess(x as nat) == k + excess(kept as nat),
            unit == pow2(k),
            unit > 0,
            unit * kept <= x < 0x1000_0000_0000_0000_0000_0000_0000_0000,
            x < unit * (kept + 1),
        decreases kept,
    {
        let ghost before = kept;
        let ghost small = unit;
        assert(unit <= x) by (nonlinear_arith)
            requires
                unit * kept <= x,
                kept >= 1,
                unit > 0,
        ;
        kept = kept / 2;
        unit = unit * 2;
        proof {
            lemma_pow2_unfold(k + 1);
            k = k + 1;
            assert(unit * kept <= x) by (nonlinear_arith)
                requires
                    small * before <= x,
                    unit == small * 2,
                    2 * kept <= before,
                    small > 0,
            ;
            assert(x < unit * (kept + 1)) by (nonlinear_arith)
                requires
                    x < small * (before + 1),
                    unit == small * 2,
                    before <= 2 * kept + 1,
                    small > 0,
            ;
        }
    }
    assert(unit * kept <= x);
    let lost: u128 = x - unit * kept;
    proof {
        assert(excess(kept as nat) == 0);
        assert(lost < unit) by (nonlinear_arith)
            requires
                lost == x - unit * kept,
                x < unit * (kept + 1),
        ;
        assert(x == kept * unit + lost) by (nonlinear_arith)
            requires
                lost == x - unit * kept,
        ;
        vstd::arithmetic::div_mod::lemma_fundamental_div_mod_converse(
            x as int,
            unit as int,
            kept as int,
            lost as int,
        );
        assert((kept + 1) * unit == kept * unit + unit) by (nonlinear_arith);
        assert(unit <= 0x1000_0000_0000_0000_0000_0000_0000_0000) by {
            if k > 0 {
                assert(0x80_0000 * unit <= x);
            }
        }
        assert(kept * unit <= x);
    }
    if lost > unit / 2 || (2 * lost == unit && kept % 2 == 1) {
        proof {
            assert(kept >= 1) by {
                if kept == 0 {
                    assert(k == 0 || x >= 0x80_0000 * unit);
                }
            }
            assert(unit <= kept * unit) by (nonlinear_arith)
                requires
                    kept >= 1,
                    unit > 0,
            ;
        }
        (kept + 1) * unit
    } else {
        kept * unit
    }
}

} // verus!
