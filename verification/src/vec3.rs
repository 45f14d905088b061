//! Fixed-point 3D vectors and the shared frame-construction helpers.
//!
//! Executable vectors (`V3`) carry milli-unit components in `i64`; their
//! mathematical image is the ghost point `Pt` with unbounded integers.

use crate::num::{
    isqrt, lemma_sqrt_floor_bounds, lemma_sqrt_floor_unique, lemma_tdiv_bound, mag, mul_div,
    sqrt_floor, tdiv, tdiv_i64,
};
use vstd::prelude::*;

verus! {

/// Mathematical image of a fixed-point vector.
pub ghost struct Pt {
    pub x: int,
    pub y: int,
    pub z: int,
}

/// A 3D vector in milli-units.
#[derive(Clone, Copy, Debug, PartialEq, Eq, Structural)]
pub struct V3 {
    pub x: i64,
    pub y: i64,
    pub z: i64,
}

impl View for V3 {
    type V = Pt;

    open spec fn view(&self) -> Pt {
        Pt { x: self.x as int, y: self.y as int, z: self.z as int }
    }
}

/// Every component within [-m, m].
pub open spec fn pt_bounded(a: Pt, m: int) -> bool {
    &&& -m <= a.x <= m
    &&& -m <= a.y <= m
    &&& -m <= a.z <= m
}

pub open spec fn pt_zero() -> Pt {
    Pt { x: 0, y: 0, z: 0 }
}

/// The up axis, one milli-unit long.
pub open spec fn pt_up() -> Pt {
    Pt { x: 0, y: 1000, z: 0 }
}

pub open spec fn pt_add(a: Pt, b: Pt) -> Pt {
    Pt { x: a.x + b.x, y: a.y + b.y, z: a.z + b.z }
}

pub open spec fn pt_sub(a: Pt, b: Pt) -> Pt {
    Pt { x: a.x - b.x, y: a.y - b.y, z: a.z - b.z }
}

/// Scale by a milli-unit factor.
pub open spec fn pt_scale(a: Pt, s: int) -> Pt {
    Pt { x: tdiv(a.x * s, 1000), y: tdiv(a.y * s, 1000), z: tdiv(a.z * s, 1000) }
}

/// Cross product of milli-unit vectors, rescaled back to milli-units.
pub open spec fn pt_cross(a: Pt, b: Pt) -> Pt {
    Pt {
        x: tdiv(a.y * b.z - a.z * b.y, 1000),
        y: tdiv(a.z * b.x - a.x * b.z, 1000),
        z: tdiv(a.x * b.y - a.y * b.x, 1000),
    }
}

/// Euclidean length, rounded down.
pub open spec fn pt_norm(a: Pt) -> int {
    sqrt_floor((a.x * a.x + a.y * a.y + a.z * a.z) as nat) as int
}

/// Rescale to unit length (1000 milli-units); the zero vector falls back to
/// the up axis so that the operation is total.
pub open spec fn pt_unit(a: Pt) -> Pt {
    if a.x == 0 && a.y == 0 && a.z == 0 {
        pt_up()
    } else {
        let n = pt_norm(a);
        Pt { x: tdiv(a.x * 1000, n), y: tdiv(a.y * 1000, n), z: tdiv(a.z * 1000, n) }
    }
}

/// The reference axis used to build a frame: the up axis unless the
/// direction is nearly vertical, in which case the z axis takes its place.
pub open spec fn pt_ref_axis(d: Pt) -> Pt {
    if mag(d.y) < 990 {
        Pt { x: 0, y: 1000, z: 0 }
    } else {
        Pt { x: 0, y: 0, z: 1000 }
    }
}

/// The local orthonormal-ish frame of a direction: right and forward vectors
/// derived by two cross products, each rescaled to unit length.
pub open spec fn pt_frame(d: Pt) -> (Pt, Pt) {
    let up = pt_ref_axis(d);
    let right = pt_unit(pt_cross(d, up));
    let forward = pt_unit(pt_cross(right, d));
    (right, forward)
}

impl V3 {
    /// The zero vector.
    pub fn zero() -> (r: V3)
        ensures
            r@ == pt_zero(),
    {
        V3 { x: 0, y: 0, z: 0 }
    }

    /// The unit up axis.
    pub fn up() -> (r: V3)
        ensures
            r@ == pt_up(),
    {
        V3 { x: 0, y: 1000, z: 0 }
    }
}

pub fn v3_add(a: V3, b: V3) -> (r: V3)
    requires
        pt_bounded(a@, 1_000_000_000),
        pt_bounded(b@, 1_000_000_000),
    ensures
        r@ == pt_add(a@, b@),
{
    V3 { x: a.x + b.x, y: a.y + b.y, z: a.z + b.z }
}

pub fn v3_sub(a: V3, b: V3) -> (r: V3)
    requires
        pt_bounded(a@, 1_000_000_000),
        pt_bounded(b@, 1_000_000_000),
    ensures
        r@ == pt_sub(a@, b@),
{
    V3 { x: a.x - b.x, y: a.y - b.y, z: a.z - b.z }
}

pub fn v3_scale(a: V3, s: i64) -> (r: V3)
    requires
        pt_bounded(a@, 2_000_000_000),
        -2_000_000_000 <= s <= 2_000_000_000,
    ensures
        r@ == pt_scale(a@, s as int),
{
    V3 { x: mul_div(a.x, s, 1000), y: mul_div(a.y, s, 1000), z: mul_div(a.z, s, 1000) }
}

/// Scaling a bounded vector by a bounded factor keeps each component within
/// the rescaled bound.
pub proof fn lemma_pt_scale_bound(a: Pt, s: int, m: int, k: int, q: int)
    requires
        pt_bounded(a, m),
        -k <= s <= k,
        0 <= m,
        0 <= k,
        m * k <= q * 1000,
    ensures
        pt_bounded(pt_scale(a, s), q),
{
    assert(-(m * k) <= a.x * s <= m * k && -(m * k) <= a.y * s <= m * k && -(m * k) <= a.z * s
        <= m * k) by (nonlinear_arith)
        requires
            pt_bounded(a, m),
            -k <= s <= k,
            0 <= m,
            0 <= k,
    ;
    lemma_tdiv_bound(a.x * s, 1000, q);
    lemma_tdiv_bound(a.y * s, 1000, q);
    lemma_tdiv_bound(a.z * s, 1000, q);
}

pub fn v3_cross(a: V3, b: V3) -> (r: V3)
    requires
        pt_bounded(a@, 100_000),
        pt_bounded(b@, 100_000),
    ensures
        r@ == pt_cross(a@, b@),
        pt_bounded(r@, 20_000_000),
{
    proof {
        assert(-10_000_000_000 <= a@.y * b@.z <= 10_000_000_000 && -10_000_000_000 <= a@.z * b@.y
            <= 10_000_000_000 && -10_000_000_000 <= a@.z * b@.x <= 10_000_000_000
            && -10_000_000_000 <= a@.x * b@.z <= 10_000_000_000 && -10_000_000_000 <= a@.x * b@.y
            <= 10_000_000_000 && -10_000_000_000 <= a@.y * b@.x <= 10_000_000_000)
            by (nonlinear_arith)
            requires
                pt_bounded(a@, 100_000),
                pt_bounded(b@, 100_000),
        ;
    }
    let t1: i64 = a.y * b.z - a.z * b.y;
    let t2: i64 = a.z * b.x - a.x * b.z;
    let t3: i64 = a.x * b.y - a.y * b.x;
    proof {
        lemma_tdiv_bound(t1 as int, 1000, 20_000_000);
        lemma_tdiv_bound(t2 as int, 1000, 20_000_000);
        lemma_tdiv_bound(t3 as int, 1000, 20_000_000);
    }
    V3 { x: tdiv_i64(t1, 1000), y: tdiv_i64(t2, 1000), z: tdiv_i64(t3, 1000) }
}

/// The rounded-down length dominates the magnitude of every component.
pub proof fn lemma_pt_norm_ge_comp(a: Pt)
    ensures
        pt_norm(a) >= mag(a.x),
        pt_norm(a) >= mag(a.y),
        pt_norm(a) >= mag(a.z),
        pt_norm(a) >= 0,
{
    let s = a.x * a.x + a.y * a.y + a.z * a.z;
    assert(s >= a.x * a.x && s >= a.y * a.y && s >= a.z * a.z && s >= 0) by (nonlinear_arith)
        requires
            s == a.x * a.x + a.y * a.y + a.z * a.z,
    ;
    let n = sqrt_floor(s as nat);
    lemma_sqrt_floor_bounds(s as nat);
    assert forall|c: int| s >= c * c implies n >= mag(c) by {
        if n < mag(c) {
            assert((n + 1) * (n + 1) <= mag(c) * mag(c)) by (nonlinear_arith)
                requires
                    n + 1 <= mag(c),
                    0 <= n,
            ;
            assert(mag(c) * mag(c) == c * c) by (nonlinear_arith);
        }
    }
}

pub fn v3_norm(a: V3) -> (r: i64)
    requires
        pt_bounded(a@, 20_000_000),
    ensures
        r == pt_norm(a@),
        r >= 0,
{
    proof {
        assert(0 <= a@.x * a@.x <= 400_000_000_000_000 && 0 <= a@.y * a@.y
            <= 400_000_000_000_000 && 0 <= a@.z * a@.z <= 400_000_000_000_000)
            by (nonlinear_arith)
            requires
                pt_bounded(a@, 20_000_000),
        ;
    }
    let s: i64 = a.x * a.x + a.y * a.y + a.z * a.z;
    proof {
        lemma_sqrt_floor_bounds(s as nat);
    }
    let r = isqrt(s as u64);
    proof {
        if r > 40_000_000 {
            assert((r as int) * (r as int) > 1_200_000_000_000_000) by (nonlinear_arith)
                requires
                    r as int > 40_000_000,
            ;
        }
    }
    r as i64
}

/// One rescaled component, squared against the exact ratio: for
/// u = tdiv(a * 1000, n), the product n * u is within n of 1000 * a in
/// magnitude, so its square sits in a band below (1000 * a)^2.
proof fn lemma_unit_comp_sq(a: int, n: int)
    requires
        n >= 1,
    ensures
        ({
            let u = tdiv(a * 1000, n);
            &&& (n * u) * (n * u) <= (1000 * a) * (1000 * a)
            &&& (n * u) * (n * u) >= (1000 * a) * (1000 * a) - 2000 * n * mag(a)
        }),
{
    let b = mag(a);
    let q = (b * 1000) / n;
    vstd::arithmetic::div_mod::lemma_fundamental_div_mod(b * 1000, n);
    vstd::arithmetic::div_mod::lemma_mod_bound(b * 1000, n);
    vstd::arithmetic::div_mod::lemma_div_pos_is_pos(b * 1000, n);
    let u = tdiv(a * 1000, n);
    assert(a * 1000 == if a >= 0 {
        b * 1000
    } else {
        -(b * 1000)
    });
    assert(mag(u) == q && (n * u) * (n * u) == (n * q) * (n * q) && (1000 * a) * (1000 * a) == (
    1000 * b) * (1000 * b)) by (nonlinear_arith)
        requires
            u == (if a >= 0 {
                q
            } else {
                -q
            }),
            b == mag(a),
            0 <= q,
    ;
    assert(n * q <= 1000 * b && n * q > 1000 * b - n) by (nonlinear_arith)
        requires
            b * 1000 == n * q + (b * 1000) % n,
            0 <= (b * 1000) % n < n,
    ;
    assert((n * q) * (n * q) <= (1000 * b) * (1000 * b)) by (nonlinear_arith)
        requires
            0 <= n * q <= 1000 * b,
    ;
    if 1000 * b >= n {
        assert((n * q) * (n * q) >= (1000 * b) * (1000 * b) - 2000 * n * b) by (nonlinear_arith)
            requires
                n * q > 1000 * b - n,
                1000 * b >= n,
                n >= 1,
                0 <= q,
                0 <= b,
        ;
    } else {
        assert((1000 * b) * (1000 * b) - 2000 * n * b <= 0 <= (n * q) * (n * q))
            by (nonlinear_arith)
            requires
                1000 * b < n,
                0 <= b,
                n >= 1,
                0 <= q,
        ;
    }
}

/// Rescaling yields a near-unit vector: its rounded norm lies in a fixed
/// band around 1000 for every input, the slack coming from truncation on
/// very short inputs.
pub proof fn lemma_pt_unit_norm_band(a: Pt)
    ensures
        995 <= pt_norm(pt_unit(a)) <= 1732,
{
    if a.x == 0 && a.y == 0 && a.z == 0 {
        assert(1000 * 1000 <= 1_000_000 < (1000 + 1) * (1000 + 1)) by (nonlinear_arith);
        lemma_sqrt_floor_unique(1_000_000nat, 1000nat);
    } else {
        let s = a.x * a.x + a.y * a.y + a.z * a.z;
        lemma_pt_norm_ge_comp(a);
        let n = pt_norm(a);
        assert(s >= 1 && s >= 0) by (nonlinear_arith)
            requires
                !(a.x == 0 && a.y == 0 && a.z == 0),
                s == a.x * a.x + a.y * a.y + a.z * a.z,
        ;
        lemma_sqrt_floor_bounds(s as nat);
        assert(n >= 1) by {
            if n == 0 {
                assert((n + 1) * (n + 1) == 1) by (nonlinear_arith)
                    requires
                        n == 0,
                ;
            }
        }
        let u = pt_unit(a);
        lemma_unit_comp_sq(a.x, n);
        lemma_unit_comp_sq(a.y, n);
        lemma_unit_comp_sq(a.z, n);
        assert(-(1000 * n) <= a.x * 1000 <= 1000 * n && -(1000 * n) <= a.y * 1000 <= 1000 * n
            && -(1000 * n) <= a.z * 1000 <= 1000 * n) by (nonlinear_arith)
            requires
                mag(a.x) <= n,
                mag(a.y) <= n,
                mag(a.z) <= n,
        ;
        lemma_tdiv_bound(a.x * 1000, n, 1000);
        lemma_tdiv_bound(a.y * 1000, n, 1000);
        lemma_tdiv_bound(a.z * 1000, n, 1000);
        let t = u.x * u.x + u.y * u.y + u.z * u.z;
        assert(0 <= t <= 3_000_000) by (nonlinear_arith)
            requires
                t == u.x * u.x + u.y * u.y + u.z * u.z,
                -1000 <= u.x <= 1000,
                -1000 <= u.y <= 1000,
                -1000 <= u.z <= 1000,
        ;
        let m = mag(a.x) + mag(a.y) + mag(a.z);
        assert(mag(a.x) * mag(a.x) == a.x * a.x && mag(a.y) * mag(a.y) == a.y * a.y && mag(a.z)
            * mag(a.z) == a.z * a.z) by (nonlinear_arith);
        assert(m * m <= 3 * s) by (nonlinear_arith)
            requires
                s == a.x * a.x + a.y * a.y + a.z * a.z,
                m == mag(a.x) + mag(a.y) + mag(a.z),
                mag(a.x) * mag(a.x) == a.x * a.x,
                mag(a.y) * mag(a.y) == a.y * a.y,
                mag(a.z) * mag(a.z) == a.z * a.z,
                0 <= mag(a.x),
                0 <= mag(a.y),
                0 <= mag(a.z),
        ;
        assert(m <= 2 * n + 1) by (nonlinear_arith)
            requires
                m * m <= 3 * s,
                s < (n + 1) * (n + 1),
                0 <= m,
                0 <= n,
        ;
        // sum the per-component bounds against n^2 * t
        assert((n * n) * (u.x * u.x) == (n * u.x) * (n * u.x) && (n * n) * (u.y * u.y) == (n
            * u.y) * (n * u.y) && (n * n) * (u.z * u.z) == (n * u.z) * (n * u.z))
            by (nonlinear_arith);
        assert((n * n) * t == (n * n) * (u.x * u.x) + (n * n) * (u.y * u.y) + (n * n) * (u.z
            * u.z)) by (nonlinear_arith)
            requires
                t == u.x * u.x + u.y * u.y + u.z * u.z,
        ;
        assert(1_000_000 * s == (1000 * a.x) * (1000 * a.x) + (1000 * a.y) * (1000 * a.y) + (
        1000 * a.z) * (1000 * a.z)) by (nonlinear_arith)
            requires
                s == a.x * a.x + a.y * a.y + a.z * a.z,
        ;
        assert(2000 * n * m == 2000 * n * mag(a.x) + 2000 * n * mag(a.y) + 2000 * n * mag(a.z))
            by (nonlinear_arith)
            requires
                m == mag(a.x) + mag(a.y) + mag(a.z),
        ;
        assert((n * n) * t >= 1_000_000 * s - 2000 * n * m);
        assert(1_000_000 * s >= 1_000_000 * (n * n)) by (nonlinear_arith)
            requires
                s >= n * n,
        ;
        assert(2000 * n * m <= 2000 * n * (2 * n + 1)) by (nonlinear_arith)
            requires
                m <= 2 * n + 1,
                0 <= m,
                n >= 1,
        ;
        assert(1_000_000 * (n * n) - 2000 * n * (2 * n + 1) >= 992_000 * (n * n))
            by (nonlinear_arith)
            requires
                n >= 1,
        ;
        assert(t >= 992_000) by (nonlinear_arith)
            requires
                (n * n) * t >= 992_000 * (n * n),
                n >= 1,
        ;
        lemma_sqrt_floor_bounds(t as nat);
        let w = pt_norm(u);
        assert(w >= 995) by {
            if w <= 994 {
                assert((w + 1) * (w + 1) <= 995 * 995) by (nonlinear_arith)
                    requires
                        0 <= w <= 994,
                ;
            }
        }
        assert(w <= 1732) by {
            if w >= 1733 {
                assert(w * w >= 1733 * 1733) by (nonlinear_arith)
                    requires
                        w >= 1733,
                ;
            }
        }
    }
}

pub fn v3_unit(a: V3) -> (r: V3)
    requires
        pt_bounded(a@, 20_000_000),
    ensures
        r@ == pt_unit(a@),
        pt_bounded(r@, 1000),
        995 <= pt_norm(r@) <= 1732,
{
    proof {
        lemma_pt_unit_norm_band(a@);
    }
    if a.x == 0 && a.y == 0 && a.z == 0 {
        V3::up()
    } else {
        let n = v3_norm(a);
        proof {
            lemma_pt_norm_ge_comp(a@);
            if n == 0 {
                assert(mag(a@.x) == 0 && mag(a@.y) == 0 && mag(a@.z) == 0);
            }
            assert(-(1000 * n) <= a@.x * 1000 <= 1000 * n && -(1000 * n) <= a@.y * 1000 <= 1000
                * n && -(1000 * n) <= a@.z * 1000 <= 1000 * n) by (nonlinear_arith)
                requires
                    mag(a@.x) <= n,
                    mag(a@.y) <= n,
                    mag(a@.z) <= n,
            ;
            lemma_tdiv_bound(a@.x * 1000, n as int, 1000);
            lemma_tdiv_bound(a@.y * 1000, n as int, 1000);
            lemma_tdiv_bound(a@.z * 1000, n as int, 1000);
        }
        V3 { x: mul_div(a.x, 1000, n), y: mul_div(a.y, 1000, n), z: mul_div(a.z, 1000, n) }
    }
}

/// Build the local frame of a direction: a right and a forward vector, both
/// unit length, perpendicular-ish to the direction and to each other.
pub fn v3_frame(d: V3) -> (rf: (V3, V3))
    requires
        pt_bounded(d@, 2000),
    ensures
        (rf.0@, rf.1@) == pt_frame(d@),
        pt_bounded(rf.0@, 1000),
        pt_bounded(rf.1@, 1000),
        995 <= pt_norm(rf.0@) <= 1732,
        995 <= pt_norm(rf.1@) <= 1732,
{
    let up = if (if d.y < 0 {
        -d.y
    } else {
        d.y
    }) < 990 {
        V3::up()
    } else {
        V3 { x: 0, y: 0, z: 1000 }
    };
    proof {
        assert(up@ == pt_ref_axis(d@));
    }
    let right = v3_unit(v3_cross(d, up));
    let forward = v3_unit(v3_cross(right, d));
    (right, forward)
}

} // verus!
