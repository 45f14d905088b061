use proctree::branch::{generate_tree, TreeConfig};
use proctree::field::{ConstNoise, LatticeNoise, NoiseField};
use proctree::random::StdRandom;
use proctree::num::{cos_milli, isqrt, mul_div, pick_i64, pick_u64, sin_milli, wrap_angle};
use proctree::vec3::{v3_cross, v3_norm, v3_unit, V3};

#[test]
fn sine_fixed_points() {
    assert_eq!(sin_milli(0), 0);
    assert_eq!(sin_milli(1571), 1000);
    assert_eq!(sin_milli(-1571), -1000);
    assert_eq!(sin_milli(3142), 0);
    assert_eq!(cos_milli(0), 1000);
    assert_eq!(cos_milli(1571), 0);
    // the rational approximation is one milli short of -1 at the half turn
    assert_eq!(cos_milli(3142), -999);
}

#[test]
fn sine_stays_in_unit_range() {
    let mut a: i64 = -3142;
    while a <= 3142 {
        let s = sin_milli(a);
        let c = cos_milli(a);
        assert!(-1000 <= s && s <= 1000);
        assert!(-1000 <= c && c <= 1000);
        a += 7;
    }
}

#[test]
fn wrap_angle_examples() {
    assert_eq!(wrap_angle(0), 0);
    assert_eq!(wrap_angle(3142), 3142);
    assert_eq!(wrap_angle(3143), -3140);
    assert_eq!(wrap_angle(6283), 0);
    assert_eq!(wrap_angle(-6283), 0);
    assert_eq!(wrap_angle(-3143), 3140);
}

#[test]
fn mul_div_truncates_toward_zero() {
    assert_eq!(mul_div(7, 300, 1000), 2);
    assert_eq!(mul_div(-7, 300, 1000), -2);
    assert_eq!(mul_div(7, -300, 1000), -2);
    assert_eq!(mul_div(-7, -300, 1000), 2);
    assert_eq!(mul_div(200, 600, 1000), 120);
}

#[test]
fn isqrt_examples() {
    assert_eq!(isqrt(0), 0);
    assert_eq!(isqrt(1), 1);
    assert_eq!(isqrt(15), 3);
    assert_eq!(isqrt(16), 4);
    assert_eq!(isqrt(995461), 997);
    assert_eq!(isqrt(u64::MAX), 4294967295);
}

#[test]
fn pick_maps_into_inclusive_range() {
    assert_eq!(pick_u64(0, 1, 3), 1);
    assert_eq!(pick_u64(5, 1, 3), 3);
    assert_eq!(pick_u64(7, 1, 3), 2);
    assert_eq!(pick_i64(0, -785, 785), -785);
    assert_eq!(pick_i64(785, -785, 785), 0);
    assert_eq!(pick_i64(1570, -785, 785), 785);
    assert_eq!(pick_i64(1571, -785, 785), -785);
}

#[test]
fn vector_normalization() {
    let v = V3 { x: 3000, y: 4000, z: 0 };
    assert_eq!(v3_norm(v), 5000);
    assert_eq!(v3_unit(v), V3 { x: 600, y: 800, z: 0 });
    // the zero vector falls back to the up axis
    assert_eq!(
        v3_unit(V3 { x: 0, y: 0, z: 0 }),
        V3 { x: 0, y: 1000, z: 0 }
    );
}

#[test]
fn const_noise_is_clamped_and_constant() {
    let f = ConstNoise::new(350);
    assert_eq!(f.sample(0, 0, 0), 350);
    assert_eq!(f.sample(-4000, 17, 900), 350);
    // out-of-range levels collapse to zero
    let g = ConstNoise::new(5000);
    assert_eq!(g.sample(1, 2, 3), 0);
}

#[test]
fn lattice_noise_is_deterministic_and_bounded() {
    let f = LatticeNoise::from_seed(9001);
    let g = LatticeNoise::from_seed(9001);
    let mut samples = Vec::new();
    for x in [-2_000_000i64, -1500, 0, 777, 123_456] {
        for z in [-999i64, 0, 451, 88_000] {
            let v = f.sample(x, 500, z);
            assert_eq!(v, g.sample(x, 500, z));
            assert!((-1000..=1000).contains(&v));
            samples.push(v);
        }
    }
    // the field varies over space
    assert!(samples.iter().any(|&v| v != samples[0]));
}

#[test]
fn lattice_noise_drives_generation() {
    let cfg = TreeConfig::standard();
    let field = LatticeNoise::from_seed(4242);
    let mut r1 = StdRandom::from_seed(7);
    let mut r2 = StdRandom::from_seed(7);
    let t1 = generate_tree(&mut r1, &field, &cfg).unwrap();
    let t2 = generate_tree(&mut r2, &field, &cfg).unwrap();
    assert_eq!(t1, t2);
}

#[test]
fn cross_product_of_axes() {
    let x = V3 { x: 1000, y: 0, z: 0 };
    let y = V3 { x: 0, y: 1000, z: 0 };
    assert_eq!(v3_cross(x, y), V3 { x: 0, y: 0, z: 1000 });
    assert_eq!(v3_cross(y, x), V3 { x: 0, y: 0, z: -1000 });
}
