//! Tiles of the square from -1 to 1.

use vstd::arithmetic::power2::{
    lemma2_to64, lemma_pow2_adds, lemma_pow2_pos, lemma_pow2_strictly_increases,
    lemma_pow2_unfold, pow2,
};
use vstd::prelude::*;

use crate::float::{law_units_follow_magnitude, magnitude_units, Float32};
use crate::rounding::{
    excess, law_round24_monotone, lemma_excess, lemma_excess_is, lemma_round24_again,
    lemma_round24_exact, lemma_round24_scale, lemma_round_near, round24, round_bits, round_to,
};

verus! {

/// Rectangle in world coordinates.
#[derive(Clone, Copy, Debug)]
pub struct Bounds {
    pub min_x: Float32,
    pub min_y: Float32,
    pub max_x: Float32,
    pub max_y: Float32,
}

/// Tiles that a rectangle touches, and the one in the middle.
#[derive(Clone, Copy, Debug, PartialEq, Eq, Structural)]
pub struct TileRange {
    pub min_tx: u32,
    pub max_tx: u32,
    pub min_ty: u32,
    pub max_ty: u32,
    pub center_tx: u32,
    pub center_ty: u32,
}

/// `(1 + value) / 2 * count`, each step rounded to 24 significant bits, in
/// whole tiles. One is `pow2(149)` units.
pub open spec fn rounded_tile(units_above_minus_one: nat, count: nat) -> nat {
    round24(round24(units_above_minus_one) * round24(count)) / pow2(150)
}

/// Tile that a coordinate falls into, out of `count` tiles from -1 to 1.
/// Coordinates beyond either end belong to the tile at that end.
pub open spec fn tile_of(value: Float32, count: u32) -> int {
    if value.is_nan() {
        0
    } else if value.is_infinite() {
        if value.negative() {
            0
        } else {
            count - 1
        }
    } else {
        let above = value.signed_units() + pow2(149);
        if above <= 0 {
            0
        } else {
            let tile = rounded_tile(above as nat, count as nat);
            if tile < count {
                tile as int
            } else {
                count - 1
            }
        }
    }
}

proof fn lemma_at_least_one(value: Float32)
    requires
        value.magnitude() >= 0x3f80_0000,
    ensures
        value.units() >= pow2(149),
{
    let m = value.magnitude();
    assert(0x3f80_0000int / 0x80_0000 == 127 && 0x3f80_0000int % 0x80_0000 == 0);
    assert(magnitude_units(0x3f80_0000) == pow2(149)) by {
        lemma2_to64();
        lemma_pow2_adds(23, 126);
    }
    if m > 0x3f80_0000 {
        law_units_follow_magnitude(0x3f80_0000, m);
    }
}

proof fn lemma_at_least_three(value: Float32)
    requires
        value.magnitude() >= 0x4040_0000,
    ensures
        value.units() >= 3 * pow2(149),
{
    let m = value.magnitude();
    assert(0x4040_0000int / 0x80_0000 == 128 && 0x4040_0000int % 0x80_0000 == 0x40_0000);
    assert(magnitude_units(0x4040_0000) == 3 * pow2(149)) by {
        lemma2_to64();
        lemma_pow2_adds(22, 127);
        assert((0x40_0000int + 0x80_0000) as nat == 3 * pow2(22));
        assert((3 * pow2(22)) * pow2(127) == 3 * (pow2(22) * pow2(127))) by (nonlinear_arith);
    }
    if m > 0x4040_0000 {
        law_units_follow_magnitude(0x4040_0000, m);
    }
}

proof fn lemma_tiny(value: Float32)
    requires
        value.magnitude() < 86 * 0x80_0000,
    ensures
        value.units() < pow2(108),
        round24((value.signed_units() + pow2(149)) as nat) == pow2(149),
{
    let m = value.magnitude();
    let top = 86 * 0x80_0000int;
    law_units_follow_magnitude(m, top);
    assert(top / 0x80_0000 == 86 && top % 0x80_0000 == 0);
    lemma2_to64();
    lemma_pow2_adds(23, 85);
    assert(magnitude_units(top) == pow2(108));
    let d = value.units();
    lemma_pow2_strictly_increases(108, 124);
    lemma_pow2_unfold(125);
    lemma_pow2_unfold(126);
    lemma_pow2_adds(23, 126);
    lemma_pow2_adds(24, 125);
    if value.negative() && d > 0 {
        let x = (pow2(149) - d) as nat;
        let u = pow2(125);
        lemma_excess_is(x, 125);
        vstd::arithmetic::div_mod::lemma_fundamental_div_mod_converse(
            x as int,
            u as int,
            0xff_ffff,
            u - d,
        );
        assert(round_to(x, u) == pow2(149));
    } else {
        let x = (pow2(149) + d) as nat;
        let u = pow2(126);
        lemma_excess_is(x, 126);
        vstd::arithmetic::div_mod::lemma_fundamental_div_mod_converse(
            x as int,
            u as int,
            0x80_0000,
            d as int,
        );
        assert(round_to(x, u) == pow2(149));
    }
}

/// Scaling down by a power of two before the division gives the same tile.
proof fn lemma_scaled_tile(sum: nat, count: nat)
    ensures
        rounded_tile(sum * pow2(85), count) == round24(round24(sum) * round24(count)) / pow2(65),
{
    let t = round24(sum);
    let c = round24(count);
    let p = round24(t * c);
    let k = pow2(85);
    lemma_round24_scale(sum, 85);
    assert((t * k) * c == (t * c) * k) by (nonlinear_arith);
    lemma_round24_scale(t * c, 85);
    lemma_pow2_adds(85, 65);
    lemma_pow2_pos(85);
    lemma_pow2_pos(65);
    vstd::arithmetic::div_mod::lemma_div_denominator((p * k) as int, k as int, pow2(65) as int);
    vstd::arithmetic::div_mod::lemma_div_multiples_vanish(p as int, k as int);
    assert(k * p == p * k) by (nonlinear_arith);
}

proof fn lemma_rounded_half(count: nat)
    ensures
        2 * round24(count) >= count,
{
    let u = pow2(excess(count));
    lemma_excess(count);
    lemma_round_near(count, u);
    if excess(count) == 0 {
        lemma2_to64();
        lemma_round24_exact(count, 0);
    }
}

proof fn lemma_far_right(above: nat, count: nat)
    requires
        above >= 4 * pow2(149),
        count > 0,
    ensures
        rounded_tile(above, count) >= count,
{
    let c = round24(count);
    lemma_rounded_half(count);
    lemma2_to64();
    lemma_pow2_adds(2, 149);
    lemma_pow2_adds(1, 150);
    let low = pow2(151);
    law_round24_monotone(low, above);
    lemma_round24_exact(1, 151);
    let r = round24(above);
    assert(low * c <= r * c) by (nonlinear_arith)
        requires
            low <= r,
    ;
    law_round24_monotone(low * c, r * c);
    lemma_round24_again(count);
    lemma_round24_scale(c, 151);
    assert(c * low == low * c) by (nonlinear_arith);
    let p = round24(r * c);
    assert(p >= low * c);
    lemma_pow2_pos(150);
    let d = pow2(150);
    assert(low * c == (2 * c) * d) by (nonlinear_arith)
        requires
            low == 2 * d,
    ;
    vstd::arithmetic::div_mod::lemma_div_is_ordered(((2 * c) * d) as int, p as int, d as int);
    vstd::arithmetic::div_mod::lemma_div_multiples_vanish((2 * c) as int, d as int);
    assert(d * (2 * c) == (2 * c) * d) by (nonlinear_arith);
}

/// Tile that a coordinate falls into.
pub fn world_to_tile(value: Float32, count: u32) -> (r: u32)
    requires
        count >= 1,
    ensures
        r == tile_of(value, count),
{
    let magnitude: u32 = value.bits % 0x8000_0000;
    let negative: bool = value.bits >= 0x8000_0000;
    if magnitude > 0x7f80_0000 {
        return 0;
    }
    if negative && magnitude >= 0x3f80_0000 {
        proof {
            if !value.is_infinite() {
                lemma_at_least_one(value);
            }
        }
        return 0;
    }
    if !negative && magnitude >= 0x4040_0000 {
        proof {
            if !value.is_infinite() {
                lemma_at_least_three(value);
                lemma_pow2_pos(149);
                lemma_far_right((value.signed_units() + pow2(149)) as nat, count as nat);
            }
        }
        return count - 1;
    }
    let exponent: u32 = magnitude / 0x80_0000;
    let fraction: u32 = magnitude % 0x80_0000;
    let one: u128 = 0x1_0000_0000_0000_0000;
    let sum: u128;
    proof {
        lemma2_to64();
        lemma_pow2_adds(64, 85);
        vstd::arithmetic::power2::lemma2_to64_rest();
    }
    let ghost above = value.signed_units() + pow2(149);
    if exponent < 86 {
        sum = one;
        proof {
            lemma_tiny(value);
            lemma_pow2_strictly_increases(108, 149);
            lemma_round24_exact(1, 64);
            lemma_round24_exact(1, 149);
            assert(round24(above as nat) == round24(pow2(149)));
            assert(pow2(149) == (one as nat) * pow2(85));
        }
    } else {
        let shift: u64 = (exponent - 86) as u64;
        proof {
            lemma2_to64();
            if shift < 42 {
                lemma_pow2_strictly_increases(shift as nat, 42);
            }
            vstd::bits::lemma_u64_shl_is_mul(1, shift);
        }
        let scale: u128 = (1u64 << shift) as u128;
        let significand: u128 = (fraction + 0x80_0000) as u128;
        proof {
            assert(significand * scale <= 0x100_0000 * 0x400_0000_0000) by (nonlinear_arith)
                requires
                    significand <= 0x100_0000,
                    scale <= 0x400_0000_0000,
            ;
        }
        let part: u128 = significand * scale;
        proof {
            lemma_pow2_adds(shift as nat, 85);
            let sc = scale as nat;
            let k = pow2(85);
            assert(value.units() == (significand as nat) * pow2((exponent - 1) as nat));
            assert((significand as nat) * (sc * k) == ((significand as nat) * sc) * k)
                by (nonlinear_arith);
            assert(value.units() == (part as nat) * k);
            assert((one as nat) * k + (part as nat) * k == ((one + part) as nat) * k)
                by (nonlinear_arith);
            if negative {
                law_units_follow_magnitude(value.magnitude(), 0x3f80_0000);
                assert(0x3f80_0000int / 0x80_0000 == 127 && 0x3f80_0000int % 0x80_0000 == 0);
                lemma_pow2_adds(23, 126);
                assert(magnitude_units(0x3f80_0000) == pow2(149));
                assert((part as nat) * k < (one as nat) * k);
                assert(part < one) by (nonlinear_arith)
                    requires
                        (part as nat) * k < (one as nat) * k,
                ;
                assert((one as nat) * k - (part as nat) * k == ((one - part) as nat) * k)
                    by (nonlinear_arith)
                    requires
                        part < one,
                ;
            }
        }
        if negative {
            sum = one - part;
        } else {
            sum = one + part;
        }
        assert(above == (sum as nat) * pow2(85));
    }
    assert(above > 0) by {
        lemma_pow2_pos(85);
        if exponent >= 86 {
            assert((sum as nat) * pow2(85) > 0) by (nonlinear_arith)
                requires
                    sum > 0,
                    pow2(85) > 0,
            ;
        } else {
            lemma_pow2_strictly_increases(108, 149);
        }
    }
    let rounded_sum: u128 = round_bits(sum);
    let rounded_count: u128 = round_bits(count as u128);
    proof {
        lemma_scaled_tile(sum as nat, count as nat);
        assert(rounded_sum * rounded_count <= 0x80_0000_0000_0000_0000 * 0x2_0000_0000)
            by (nonlinear_arith)
            requires
                rounded_sum <= 0x80_0000_0000_0000_0000,
                rounded_count <= 0x2_0000_0000,
        ;
    }
    let product: u128 = round_bits(rounded_sum * rounded_count);
    let tile: u128 = product / 0x2_0000_0000_0000_0000;
    proof {
        lemma_pow2_unfold(65);
        assert(pow2(65) == 0x2_0000_0000_0000_0000);
        assert(tile == rounded_tile(above as nat, count as nat));
    }
    if tile < count as u128 {
        tile as u32
    } else {
        count - 1
    }
}

/// The `count` tiles share the line: every tile is one of them.
pub proof fn law_tile_in_range(value: Float32, count: u32)
    requires
        count >= 1,
    ensures
        0 <= tile_of(value, count) < count,
{
}

/// A greater coordinate never falls into a lower tile.
pub proof fn law_tile_monotone(low: Float32, high: Float32, count: u32)
    requires
        count >= 1,
        high.at_least(low),
    ensures
        tile_of(low, count) <= tile_of(high, count),
{
    if !low.is_infinite() && !high.is_infinite() {
        lemma_units_follow_rank(low, high);
        let a = low.signed_units() + pow2(149);
        let b = high.signed_units() + pow2(149);
        if a > 0 {
            let c = round24(count as nat);
            law_round24_monotone(a as nat, b as nat);
            let ra = round24(a as nat);
            let rb = round24(b as nat);
            assert(ra * c <= rb * c) by (nonlinear_arith)
                requires
                    ra <= rb,
            ;
            law_round24_monotone(ra * c, rb * c);
            lemma_pow2_pos(150);
            vstd::arithmetic::div_mod::lemma_div_is_ordered(
                round24(ra * c) as int,
                round24(rb * c) as int,
                pow2(150) as int,
            );
        }
    }
}

proof fn lemma_units_follow_rank(low: Float32, high: Float32)
    requires
        high.at_least(low),
    ensures
        low.signed_units() <= high.signed_units(),
{
    assert(0int / 0x80_0000 == 0 && 0int % 0x80_0000 == 0);
    let a = low.magnitude();
    let b = high.magnitude();
    if a < b {
        law_units_follow_magnitude(a, b);
    } else if b < a {
        law_units_follow_magnitude(b, a);
    }
}

/// Coarse tiles are made of whole fine ones: where the counts are powers of
/// two, the coarse tile follows from the fine one.
pub proof fn law_tiles_nest(value: Float32, coarse: u32, fine: u32, a: nat, b: nat)
    requires
        a <= b,
        coarse == pow2(a),
        fine == pow2(b),
    ensures
        tile_of(value, coarse) == tile_of(value, fine) / (pow2((b - a) as nat) as int),
{
    let d = pow2((b - a) as nat);
    lemma_pow2_pos((b - a) as nat);
    lemma_pow2_pos(a);
    lemma_pow2_adds(a, (b - a) as nat);
    let pa = pow2(a);
    let pb = pow2(b);
    assert(pb == pa * d);
    assert((pb - 1) / (d as int) == pa - 1) by {
        assert(pb - 1 == (pa - 1) * d + (d - 1)) by (nonlinear_arith)
            requires
                pb == pa * d,
        ;
        vstd::arithmetic::div_mod::lemma_fundamental_div_mod_converse(
            pb - 1,
            d as int,
            pa - 1,
            d - 1,
        );
    }
    assert(0int / (d as int) == 0) by (nonlinear_arith)
        requires
            d > 0,
    ;
    let above = value.signed_units() + pow2(149);
    if !value.is_nan() && !value.is_infinite() && above > 0 {
        let s = round24(above as nat);
        let unit = pow2(150);
        lemma_pow2_pos(150);
        lemma_round24_exact(1, a);
        lemma_round24_exact(1, b);
        lemma_round24_again(above as nat);
        lemma_round24_scale(s, a);
        lemma_round24_scale(s, b);
        let x = s * pa;
        let y = s * pb;
        assert(y == x * d) by (nonlinear_arith)
            requires
                x == s * pa,
                y == s * pb,
                pb == pa * d,
        ;
        let ta = x / unit;
        let tb = y / unit;
        assert(tb as int / (d as int) == ta) by {
            vstd::arithmetic::div_mod::lemma_div_denominator(y as int, unit as int, d as int);
            vstd::arithmetic::div_mod::lemma_div_denominator(y as int, d as int, unit as int);
            assert(unit * d == d * unit) by (nonlinear_arith);
            vstd::arithmetic::div_mod::lemma_div_multiples_vanish(x as int, d as int);
            assert(d * x == x * d) by (nonlinear_arith);
        }
        if tb >= pb {
            vstd::arithmetic::div_mod::lemma_div_is_ordered(pb as int, tb as int, d as int);
            vstd::arithmetic::div_mod::lemma_div_multiples_vanish(pa as int, d as int);
            assert(d * pa == pa * d) by (nonlinear_arith);
        } else {
            vstd::arithmetic::div_mod::lemma_div_is_ordered(tb as int, pb - 1, d as int);
        }
    }
}

/// Where the line is cut into a power of two of tiles, each tile holds its equal
/// part of the line: with the line's two units from -1 to 1 taken as `pow2(150)`,
/// a coordinate between them, counted from -1 and rounded once, lies in the part
/// of its tile. Beyond the ends the tiles at the ends are taken.
pub proof fn law_tile_holds_coordinate(value: Float32, a: nat, count: u32)
    requires
        count == pow2(a),
        a <= 31,
        !value.is_nan(),
    ensures
        ({
            let t = tile_of(value, count);
            let width = pow2((150 - a) as nat);
            let above = value.signed_units() + pow2(149);
            &&& value.is_infinite() ==> t == if value.negative() {
                0
            } else {
                count - 1
            }
            &&& !value.is_infinite() && above <= 0 ==> t == 0
            &&& !value.is_infinite() && above >= pow2(150) ==> t == count - 1
            &&& !value.is_infinite() && above > 0 ==> t * width <= round24(above as nat)
            &&& !value.is_infinite() && above > 0 && t < count - 1 ==> round24(above as nat) < (t
                + 1) * width
        }),
{
    lemma_pow2_pos(a);
    lemma_pow2_pos(150);
    lemma_pow2_pos((150 - a) as nat);
    lemma_pow2_adds(a, (150 - a) as nat);
    let width = pow2((150 - a) as nat);
    let above = value.signed_units() + pow2(149);
    if !value.is_infinite() && above > 0 {
        let s = round24(above as nat);
        let c = count as nat;
        lemma_round24_exact(1, a);
        assert(1 * pow2(a) == pow2(a));
        assert(round24(c) == c);
        lemma_round24_again(above as nat);
        lemma_round24_scale(s, a);
        assert(round24(s * c) == s * c);
        let t = (s * c) / pow2(150);
        assert(t == s / width) by {
            assert(pow2(150) == c * width);
            vstd::arithmetic::div_mod::lemma_div_denominator((s * c) as int, c as int, width as int);
            vstd::arithmetic::div_mod::lemma_div_multiples_vanish(s as int, c as int);
            assert(c * s == s * c) by (nonlinear_arith);
        }
        assert(t * width <= s < (t + 1) * width) by (nonlinear_arith)
            requires
                t == s / width,
                width > 0,
        ;
        if t >= c {
            assert((c - 1) * width <= t * width) by (nonlinear_arith)
                requires
                    c - 1 <= t,
                    width > 0,
            ;
        }
        if above >= pow2(150) {
            lemma_round24_exact(1, 150);
            assert(1 * pow2(150) == pow2(150));
            law_round24_monotone(pow2(150), above as nat);
            assert(t >= c) by (nonlinear_arith)
                requires
                    s >= c * width,
                    s < (t + 1) * width,
                    width > 0,
            ;
        }
    }
}

/// Tiles that a rectangle touches when the line is cut into `1 << lod` tiles.
pub fn tiles_for_bounds(bounds: Bounds, lod: u16) -> (r: TileRange)
    requires
        lod < 32,
    ensures
        ({
            let count = pow2(lod as nat) as u32;
            &&& count == pow2(lod as nat)
            &&& r.min_tx == tile_of(bounds.min_x, count)
            &&& r.max_tx == tile_of(bounds.max_x, count)
            &&& r.min_ty == tile_of(bounds.min_y, count)
            &&& r.max_ty == tile_of(bounds.max_y, count)
            &&& r.center_tx == (r.min_tx + r.max_tx) / 2
            &&& r.center_ty == (r.min_ty + r.max_ty) / 2
        }),
{
    let count: u32 = tile_count(lod);
    let min_tx: u32 = world_to_tile(bounds.min_x, count);
    let max_tx: u32 = world_to_tile(bounds.max_x, count);
    let min_ty: u32 = world_to_tile(bounds.min_y, count);
    let max_ty: u32 = world_to_tile(bounds.max_y, count);
    TileRange {
        min_tx,
        max_tx,
        min_ty,
        max_ty,
        center_tx: (min_tx + max_tx) / 2,
        center_ty: (min_ty + max_ty) / 2,
    }
}

/// Number of tiles along a line at a level of detail.
pub fn tile_count(lod: u16) -> (r: u32)
    requires
        lod < 32,
    ensures
        r == pow2(lod as nat),
        1 <= r <= 0x8000_0000,
{
    proof {
        lemma2_to64();
        lemma_pow2_pos(lod as nat);
        if lod < 31 {
            lemma_pow2_strictly_increases(lod as nat, 31);
        }
        vstd::bits::lemma_u32_shl_is_mul(1, lod as u32);
    }
    1u32 << (lod as u32)
}

/// Squared distance of a tile from the middle one.
pub fn tile_distance(tx: u32, ty: u32, center_tx: u32, center_ty: u32) -> (r: u64)
    requires
        (tx - center_tx) * (tx - center_tx) + (ty - center_ty) * (ty - center_ty) <= i64::MAX,
    ensures
        r == (tx - center_tx) * (tx - center_tx) + (ty - center_ty) * (ty - center_ty),
{
    let dx: i64 = tx as i64 - center_tx as i64;
    let dy: i64 = ty as i64 - center_ty as i64;
    assert(dx * dx >= 0) by (nonlinear_arith);
    assert(dy * dy >= 0) by (nonlinear_arith);
    (dx * dx + dy * dy) as u64
}

/// A tile is at distance zero from itself and from no other, and the distance
/// is the same from either side.
pub proof fn law_distance_separates(tx: u32, ty: u32, center_tx: u32, center_ty: u32)
    ensures
        (tx - center_tx) * (tx - center_tx) + (ty - center_ty) * (ty - center_ty) == 0 <==> tx
            == center_tx && ty == center_ty,
        (tx - center_tx) * (tx - center_tx) + (ty - center_ty) * (ty - center_ty) == (center_tx
            - tx) * (center_tx - tx) + (center_ty - ty) * (center_ty - ty),
{
    let dx = tx - center_tx;
    let dy = ty - center_ty;
    assert(dx * dx + dy * dy == 0 <==> dx == 0 && dy == 0) by (nonlinear_arith);
    assert(dx * dx == (-dx) * (-dx)) by (nonlinear_arith);
    assert(dy * dy == (-dy) * (-dy)) by (nonlinear_arith);
}

} // verus!
