use segraph::float::{Float32, Float64};
use segraph::narrow::narrow;
use segraph::server::tile_math::{
    tile_count, tile_distance, tiles_for_bounds, world_to_tile, Bounds,
};

fn f(v: f32) -> Float32 {
    Float32 { bits: v.to_bits() }
}

#[test]
fn maps_world_coordinates_to_bounded_tiles() {
    assert_eq!(world_to_tile(f(-2.0), 4), 0);
    assert_eq!(world_to_tile(f(-1.0), 4), 0);
    assert_eq!(world_to_tile(f(0.0), 4), 2);
    assert_eq!(world_to_tile(f(1.0), 4), 3);
    assert_eq!(world_to_tile(f(2.0), 4), 3);
}

#[test]
fn computes_viewport_tile_range_like_server_js() {
    let range = tiles_for_bounds(
        Bounds {
            min_x: f(-0.6),
            min_y: f(-0.2),
            max_x: f(0.7),
            max_y: f(0.8),
        },
        3,
    );

    assert_eq!(range.min_tx, 1);
    assert_eq!(range.max_tx, 6);
    assert_eq!(range.min_ty, 3);
    assert_eq!(range.max_ty, 7);
}

#[test]
fn prioritizes_tiles_closer_to_center() {
    assert_eq!(tile_distance(5, 5, 5, 5), 0);
    assert_eq!(tile_distance(7, 5, 5, 5), 4);
    assert_eq!(tile_distance(7, 8, 5, 5), 13);
}

fn machine_tile(v: f32, count: u32) -> u32 {
    let normalized = ((1.0 + v) / 2.0 * count as f32).floor();
    (normalized as i64).clamp(0, i64::from(count) - 1) as u32
}

#[test]
fn tiles_agree_with_machine_arithmetic() {
    let counts = [1u32, 2, 3, 4, 7, 16, 32, 1000, 32768, 1 << 24, 123_456_789, u32::MAX];
    let mut seed: u32 = 12345;
    for round in 0..20000u32 {
        seed = seed.wrapping_mul(1664525).wrapping_add(1013904223);
        let mut v = f32::from_bits(seed);
        if round % 2 == 0 {
            v = (seed as f32 / u32::MAX as f32) * 2.4 - 1.2;
        }
        for &count in &counts {
            assert_eq!(world_to_tile(f(v), count), machine_tile(v, count), "{v} {count}");
        }
    }
    for v in [
        0.0f32,
        -0.0,
        f32::MIN_POSITIVE,
        -f32::MIN_POSITIVE,
        f32::INFINITY,
        f32::NEG_INFINITY,
        f32::NAN,
        1.0e-40,
        0.99999994,
        -0.99999994,
        f32::EPSILON,
    ] {
        for &count in &counts {
            assert_eq!(world_to_tile(f(v), count), machine_tile(v, count), "{v} {count}");
        }
    }
}

#[test]
fn finer_levels_have_four_times_the_tiles() {
    assert_eq!(tile_count(0), 1);
    assert_eq!(tile_count(3), 8);
    assert_eq!(tile_count(31), 1 << 31);
}

#[test]
fn center_of_bounds_lies_in_the_middle_tile() {
    let range = tiles_for_bounds(
        Bounds {
            min_x: f(-1.0),
            min_y: f(-1.0),
            max_x: f(1.0),
            max_y: f(1.0),
        },
        2,
    );
    assert_eq!((range.center_tx, range.center_ty), (1, 1));
}

#[test]
fn floats_compare_as_the_machine_does() {
    let values = [
        0.0f32,
        -0.0,
        1.5,
        -1.5,
        f32::NAN,
        f32::INFINITY,
        f32::NEG_INFINITY,
        1.0e-40,
        -1.0e-40,
    ];
    for &a in &values {
        for &b in &values {
            assert_eq!(f(a) == f(b), a == b);
            assert_eq!(f(a) < f(b), a < b);
            assert_eq!(f(a).partial_cmp(&f(b)), a.partial_cmp(&b));
            assert_eq!(f(a).ge_value(f(b)), a >= b);
            for &c in &values {
                assert_eq!(f(a).within(f(b), f(c)), a >= b && a <= c);
            }
        }
    }
    let wide = |v: f64| Float64 { bits: v.to_bits() };
    assert!(wide(0.0) == wide(-0.0));
    assert!(wide(f64::NAN) != wide(f64::NAN));
    assert!(wide(1.0) != wide(2.0));
}

#[test]
fn narrowing_agrees_with_the_machine() {
    let check = |v: f64| {
        let got = f32::from_bits(narrow(Float64 { bits: v.to_bits() }).bits);
        let expected = v as f32;
        if expected.is_nan() {
            assert!(got.is_nan());
        } else {
            assert_eq!(got.to_bits(), expected.to_bits(), "{v:e}");
        }
    };
    for v in [
        0.0f64,
        -0.0,
        1.0,
        -1.5,
        0.1,
        f64::NAN,
        f64::INFINITY,
        f64::NEG_INFINITY,
        f64::MAX,
        f64::MIN_POSITIVE,
        3.4028235677973366e38,
        3.402823567797336e38,
        1.401298464324817e-45,
        7.006492321624085e-46,
        7.006492321624087e-46,
        1.1754943508222875e-38,
        1.1754942807573643e-38,
        1.0 + 1.0 / 16777216.0,
        1.0 + 3.0 / 16777216.0,
    ] {
        check(v);
        check(-v);
    }
    let mut seed: u64 = 7;
    for round in 0..200000u64 {
        seed = seed
            .wrapping_mul(6364136223846793005)
            .wrapping_add(1442695040888963407);
        check(f64::from_bits(seed));
        let exponent = 860 + round % 300;
        check(f64::from_bits((seed >> 12) | (exponent << 52)));
        let halfway = (seed & 0xf_ffff_e000_0000) | 0x1000_0000;
        check(f64::from_bits(halfway | (exponent << 52)));
    }
}
