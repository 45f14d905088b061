//! Fixed-point arithmetic helpers shared by the generator and the mesh
//! synthesizer.  All scalars are carried in milli-units: the integer 1000
//! stands for 1.0.

use vstd::prelude::*;
use vstd::arithmetic::div_mod::{
    lemma_div_nonincreasing, lemma_div_pos_is_pos, lemma_multiply_divide_le,
    lemma_multiply_divide_lt,
};

verus! {

/// Truncating division toward zero, the behaviour of machine division on
/// signed integers.  For a non-negative dividend it coincides with floor
/// division.
pub open spec fn tdiv(a: int, d: int) -> int
    recommends
        d > 0,
{
    if a >= 0 {
        a / d
    } else {
        -((-a) / d)
    }
}

/// Magnitude of an integer.
pub open spec fn mag(a: int) -> int {
    if a >= 0 {
        a
    } else {
        -a
    }
}

/// A quotient is no larger in magnitude than any bound the dividend's
/// magnitude gives: if |a| <= m * d then |a / d| <= m.
pub proof fn lemma_tdiv_bound(a: int, d: int, m: int)
    requires
        d > 0,
        0 <= m,
        -(m * d) <= a <= m * d,
    ensures
        -m <= tdiv(a, d) <= m,
{
    assert(m * d == d * m) by (nonlinear_arith);
    if a >= 0 {
        lemma_div_pos_is_pos(a, d);
        lemma_multiply_divide_le(a, d, m);
    } else {
        lemma_div_pos_is_pos(-a, d);
        lemma_multiply_divide_le(-a, d, m);
    }
}

/// Strict version for a non-negative dividend: if 0 <= a < m * d then
/// a / d < m.
pub proof fn lemma_tdiv_lt(a: int, d: int, m: int)
    requires
        d > 0,
        0 <= a,
        a < m * d,
    ensures
        0 <= tdiv(a, d) < m,
{
    assert(m * d == d * m) by (nonlinear_arith);
    lemma_div_pos_is_pos(a, d);
    lemma_multiply_divide_lt(a, d, m);
}

/// Exact division and remainder of a value written as q * d + r.
pub proof fn lemma_div_mod_exact(q: int, d: int, r: int)
    requires
        d > 0,
        0 <= r < d,
    ensures
        (q * d + r) / d == q,
        (q * d + r) % d == r,
{
    vstd::arithmetic::div_mod::lemma_fundamental_div_mod_converse(q * d + r, d, q, r);
}

/// `(a * b) / d` with truncation toward zero, computed without overflow.
pub fn mul_div(a: i64, b: i64, d: i64) -> (r: i64)
    requires
        0 < d,
        -2_000_000_000 <= a <= 2_000_000_000,
        -2_000_000_000 <= b <= 2_000_000_000,
    ensures
        r == tdiv(a as int * b as int, d as int),
{
    let neg = (a < 0) != (b < 0);
    let ua: u64 = if a < 0 {
        (-a) as u64
    } else {
        a as u64
    };
    let ub: u64 = if b < 0 {
        (-b) as u64
    } else {
        b as u64
    };
    proof {
        assert(ua as int == mag(a as int));
        assert(ub as int == mag(b as int));
        assert(ua as int * ub as int <= 4_000_000_000_000_000_000) by (nonlinear_arith)
            requires
                0 <= ua as int <= 2_000_000_000,
                0 <= ub as int <= 2_000_000_000,
        ;
    }
    let p: u64 = ua * ub;
    let q: u64 = p / (d as u64);
    proof {
        lemma_div_nonincreasing(p as int, d as int);
        lemma_div_pos_is_pos(p as int, d as int);
        assert(a as int * b as int == if neg {
            -(p as int)
        } else {
            p as int
        }) by (nonlinear_arith)
            requires
                ua as int == mag(a as int),
                ub as int == mag(b as int),
                p as int == ua as int * ub as int,
                neg == ((a < 0) != (b < 0)),
        ;
    }
    let qi = q as i64;
    if neg {
        proof {
            if p == 0 {
                assert(tdiv(a as int * b as int, d as int) == 0);
            }
        }
        -qi
    } else {
        qi
    }
}

/// Floor of the square root, defined by stepping up from zero.
pub open spec fn sqrt_floor(n: nat) -> nat
    decreases n,
{
    if n == 0 {
        0
    } else {
        let r = sqrt_floor((n - 1) as nat);
        if (r + 1) * (r + 1) <= n {
            r + 1
        } else {
            r
        }
    }
}

/// The defining property of `sqrt_floor`.
pub proof fn lemma_sqrt_floor_bounds(n: nat)
    ensures
        sqrt_floor(n) * sqrt_floor(n) <= n,
        n < (sqrt_floor(n) + 1) * (sqrt_floor(n) + 1),
    decreases n,
{
    if n == 0 {
        assert(sqrt_floor(0) == 0);
        assert((sqrt_floor(0) + 1) * (sqrt_floor(0) + 1) == 1) by (nonlinear_arith)
            requires
                sqrt_floor(0) == 0,
        ;
    } else {
        lemma_sqrt_floor_bounds((n - 1) as nat);
        let r = sqrt_floor((n - 1) as nat);
        if (r + 1) * (r + 1) <= n {
            assert(sqrt_floor(n) == r + 1);
            assert(n < ((r + 1) + 1) * ((r + 1) + 1)) by (nonlinear_arith)
                requires
                    (n - 1) < (r + 1) * (r + 1),
                    (r + 1) * (r + 1) <= n,
                    0 <= r,
            ;
        } else {
            assert(sqrt_floor(n) == r);
            assert(r * r <= n - 1);
        }
    }
}

/// Any value meeting the square-root bounds is the floor square root.
pub proof fn lemma_sqrt_floor_unique(n: nat, r: nat)
    requires
        r * r <= n,
        n < (r + 1) * (r + 1),
    ensures
        r == sqrt_floor(n),
{
    let s = sqrt_floor(n);
    lemma_sqrt_floor_bounds(n);
    if r < s {
        assert((r + 1) * (r + 1) <= s * s) by (nonlinear_arith)
            requires
                r + 1 <= s,
                0 <= r,
        ;
    }
    if s < r {
        assert((s + 1) * (s + 1) <= r * r) by (nonlinear_arith)
            requires
                s + 1 <= r,
                0 <= s,
        ;
    }
}

/// Integer square root by bisection.
pub fn isqrt(n: u64) -> (r: u64)
    ensures
        r as nat == sqrt_floor(n as nat),
        r as int * r as int <= n as int,
        (n as int) < ((r as int + 1) * (r as int + 1)),
{
    let mut lo: u64 = 0;
    let mut hi: u64 = 4294967296;
    while lo + 1 < hi
        invariant
            lo < hi,
            hi <= 4294967296,
            lo as int * lo as int <= n as int,
            (n as int) < ((hi as int) * (hi as int)),
        decreases hi - lo,
    {
        let mid = lo + (hi - lo) / 2;
        proof {
            assert(lo < mid < hi);
            assert((mid as int) * (mid as int) < 0xffff_ffff_ffff_ffff) by (nonlinear_arith)
                requires
                    0 <= mid as int <= 4294967295,
            ;
        }
        if mid * mid <= n {
            lo = mid;
        } else {
            hi = mid;
        }
    }
    proof {
        assert(hi == lo + 1);
        lemma_sqrt_floor_unique(n as nat, lo as nat);
    }
    lo
}

/// Map a raw draw into an inclusive range: lo + raw mod (hi - lo + 1).
pub open spec fn spec_pick(raw: int, lo: int, hi: int) -> int
    recommends
        0 <= raw,
        lo <= hi,
{
    lo + raw % (hi - lo + 1)
}

/// Clamp a raw draw into an inclusive unsigned range.
pub fn pick_u64(raw: u64, lo: u64, hi: u64) -> (r: u64)
    requires
        lo <= hi,
        (hi as int) - (lo as int) < 0xffff_ffff_ffff_ffff,
    ensures
        r as int == spec_pick(raw as int, lo as int, hi as int),
        lo <= r <= hi,
{
    let span: u64 = (hi - lo) + 1;
    let off: u64 = raw % span;
    lo + off
}

/// Clamp a raw draw into an inclusive signed range.
pub fn pick_i64(raw: u64, lo: i64, hi: i64) -> (r: i64)
    requires
        lo <= hi,
        hi as int - lo as int <= 1_000_000_000,
    ensures
        r as int == spec_pick(raw as int, lo as int, hi as int),
        lo <= r <= hi,
{
    let span: u64 = ((hi - lo) as u64) + 1;
    let off: u64 = raw % span;
    lo + (off as i64)
}

/// Truncating division of a single milli-unit quantity.
pub fn tdiv_i64(a: i64, d: i64) -> (r: i64)
    requires
        0 < d,
        -0x7fff_ffff_ffff_ffff <= a,
    ensures
        r == tdiv(a as int, d as int),
{
    let neg = a < 0;
    let ua: u64 = if neg {
        (-a) as u64
    } else {
        a as u64
    };
    let q: u64 = ua / (d as u64);
    proof {
        vstd::arithmetic::div_mod::lemma_div_nonincreasing(ua as int, d as int);
        vstd::arithmetic::div_mod::lemma_div_pos_is_pos(ua as int, d as int);
    }
    let qi = q as i64;
    if neg {
        -qi
    } else {
        qi
    }
}

/// Linear interpolation between two milli-unit values at parameter t, with
/// t in [0, 1000).
pub open spec fn spec_lerp(a: int, b: int, t: int) -> int
    recommends
        0 <= t < 1000,
{
    a + tdiv((b - a) * t, 1000)
}

/// The interpolant stays between its endpoints.
pub proof fn lemma_lerp_range(a: int, b: int, t: int)
    requires
        0 <= t < 1000,
    ensures
        a <= b ==> a <= spec_lerp(a, b, t) <= b,
        b <= a ==> b <= spec_lerp(a, b, t) <= a,
{
    let d = b - a;
    if d >= 0 {
        assert(0 <= d * t <= d * 1000) by (nonlinear_arith)
            requires
                0 <= d,
                0 <= t < 1000,
        ;
        lemma_tdiv_bound(d * t, 1000, d);
        lemma_div_pos_is_pos(d * t, 1000);
        lemma_multiply_divide_le(d * t, 1000, d);
    } else {
        let e = -d;
        assert(0 <= e * t <= e * 1000) by (nonlinear_arith)
            requires
                0 <= e,
                0 <= t < 1000,
        ;
        assert(d * t == -(e * t)) by (nonlinear_arith)
            requires
                e == -d,
        ;
        lemma_tdiv_bound(e * t, 1000, e);
        lemma_div_pos_is_pos(e * t, 1000);
        lemma_multiply_divide_le(e * t, 1000, e);
    }
}

/// Interpolate between two milli-unit values; the result stays between the
/// endpoints, so within the unit range whenever they are.
pub fn lerp_milli(a: i64, b: i64, t: i64) -> (r: i64)
    requires
        -1000 <= a <= 1000,
        -1000 <= b <= 1000,
        0 <= t < 1000,
    ensures
        r == spec_lerp(a as int, b as int, t as int),
        -1000 <= r <= 1000,
{
    proof {
        lemma_lerp_range(a as int, b as int, t as int);
        assert(-(2000 * 1000) <= (b - a) as int * t as int <= 2000 * 1000) by (nonlinear_arith)
            requires
                -2000 <= (b - a) as int <= 2000,
                0 <= t as int,
                (t as int) < 1000,
        ;
        lemma_tdiv_bound((b - a) as int * t as int, 1000, 2000);
    }
    let d: i64 = b - a;
    let n: i64 = d * t;
    a + tdiv_i64(n, 1000)
}

/// Bhaskara's rational approximation of the sine on [0, pi], in milli-units.
/// 49360820 is five times the square of the milli-unit half turn 3142.
pub open spec fn spec_sin_pos(x: int) -> int
    recommends
        0 <= x <= 3142,
{
    let q = x * (3142 - x);
    (16 * q * 1000) / (49360820 - 4 * q)
}

/// Odd extension of the sine approximation to [-pi, pi].
pub open spec fn spec_sin(x: int) -> int
    recommends
        -3142 <= x <= 3142,
{
    if x < 0 {
        -spec_sin_pos(-x)
    } else {
        spec_sin_pos(x)
    }
}

/// Bring an angle that overshot by at most one turn back into [-pi, pi].
pub open spec fn spec_wrap(x: int) -> int
    recommends
        -6284 <= x <= 6284,
{
    if x > 3142 {
        x - 6283
    } else if x < -3142 {
        x + 6283
    } else {
        x
    }
}

/// Cosine as the shifted sine.
pub open spec fn spec_cos(x: int) -> int
    recommends
        -3142 <= x <= 3142,
{
    spec_sin(spec_wrap(x + 1571))
}

/// The argument of the approximation stays within the quarter-turn square:
/// x * (3142 - x) peaks at 1571 * 1571.
proof fn lemma_sin_arg_bounds(x: int)
    requires
        0 <= x <= 3142,
    ensures
        0 <= x * (3142 - x) <= 2468041,
{
    assert(0 <= x * (3142 - x) <= 2468041) by (nonlinear_arith)
        requires
            0 <= x <= 3142,
    ;
}

/// Sine in milli-units on [-pi, pi].
pub fn sin_milli(x: i64) -> (r: i64)
    requires
        -3142 <= x <= 3142,
    ensures
        r == spec_sin(x as int),
        -1000 <= r <= 1000,
{
    let neg = x < 0;
    let xa: i64 = if neg {
        -x
    } else {
        x
    };
    proof {
        lemma_sin_arg_bounds(xa as int);
    }
    let q: i64 = xa * (3142 - xa);
    let num: i64 = 16 * q * 1000;
    let den: i64 = 49360820 - 4 * q;
    let v: i64 = ((num as u64) / (den as u64)) as i64;
    proof {
        lemma_div_pos_is_pos(num as int, den as int);
        assert(num <= 1000 * den);
        lemma_multiply_divide_le(num as int, den as int, 1000);
        lemma_div_nonincreasing(num as int, den as int);
    }
    if neg {
        -v
    } else {
        v
    }
}

/// Wrap an angle that is off by at most one turn back into [-pi, pi].
pub fn wrap_angle(x: i64) -> (r: i64)
    requires
        -6284 <= x <= 6284,
    ensures
        r == spec_wrap(x as int),
        -3142 <= r <= 3142,
{
    if x > 3142 {
        x - 6283
    } else if x < -3142 {
        x + 6283
    } else {
        x
    }
}

/// Cosine in milli-units on [-pi, pi].
pub fn cos_milli(x: i64) -> (r: i64)
    requires
        -3142 <= x <= 3142,
    ensures
        r == spec_cos(x as int),
        -1000 <= r <= 1000,
{
    let y = wrap_angle(x + 1571);
    sin_milli(y)
}

} // verus!
