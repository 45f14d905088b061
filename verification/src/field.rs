//! The coherent-noise capability that guides branch twist.
//!
//! The generator only needs a deterministic, bounded scalar field sampled at
//! milli-unit coordinates.  `NoiseField` states exactly that.  `LatticeNoise`
//! is a self-contained coherent field over an integer lattice; `ConstNoise`
//! is the simplest deterministic field and serves tests.  An adapter around
//! another coherent-noise provider can implement the same trait outside the
//! verified library.

use crate::num::{lerp_milli, spec_lerp};
use vstd::prelude::*;

verus! {

/// A deterministic scalar field over milli-unit coordinates, with values in
/// the milli-unit range [-1000, 1000].  `at` is the field's mathematical
/// image; sampling returns exactly that image, so repeated sampling at one
/// coordinate always agrees.
///
/// An adapter outside the verified library can implement `sample` alone and
/// leave `at` its default; such an impl is unchecked, so nothing ties its
/// samples to the default image, and graphs grown over it enjoy the
/// structural guarantees (tapering, leaf rule, depth, sizing) for whatever
/// in-range values it returns, but not the pinned-model equalities.
pub trait NoiseField {
    /// The field's value at a coordinate; impls inside the library give this
    /// their own meaning, outside adapters leave the default.
    open spec fn at(&self, x: int, y: int, z: int) -> int {
        0
    }

    /// Sample the field at a point given in milli-units.
    fn sample(&self, x: i64, y: i64, z: i64) -> (n: i64)
        ensures
            n == self.at(x as int, y as int, z as int),
            -1000 <= n <= 1000,
    ;
}

/// Coordinates are clamped into the supported window before sampling, so
/// the field is total over all inputs.
pub open spec fn clamp_coord(x: int) -> int {
    if x < -1_000_000_000 {
        -1_000_000_000
    } else if x > 1_000_000_000 {
        1_000_000_000
    } else {
        x
    }
}

/// The lattice cell a clamped coordinate falls in; cells are one unit
/// (1000 milli) wide.
pub open spec fn cell_of(x: int) -> int
    recommends
        -1_000_000_000 <= x <= 1_000_000_000,
{
    (x + 1_000_000_000) / 1000 - 1_000_000
}

/// The position within the cell, in [0, 1000).
pub open spec fn frac_of(x: int) -> int
    recommends
        -1_000_000_000 <= x <= 1_000_000_000,
{
    (x + 1_000_000_000) % 1000
}

/// The pseudo-random value pinned to one lattice corner: a seeded mix of the
/// cell coordinates, reduced into the milli-unit range.
pub open spec fn corner_value(seed: u64, cx: int, cy: int, cz: int) -> int
    recommends
        -1_000_001 <= cx <= 1_000_001,
        -1_000_001 <= cy <= 1_000_001,
        -1_000_001 <= cz <= 1_000_001,
{
    let h = ((cx + 1_000_001) * 73_856_093 + (cy + 1_000_001) * 19_349_663 + (cz + 1_000_001)
        * 83_492_791 + (seed as int) % 1_000_000_007) % 1_000_000_007;
    (h * 48_271) % 2001 - 1000
}

/// The field value of a seeded lattice at a point: the eight surrounding
/// corner values blended trilinearly, so nearby points agree smoothly.
pub open spec fn lattice_at(seed: u64, x: int, y: int, z: int) -> int {
    let xc = clamp_coord(x);
    let yc = clamp_coord(y);
    let zc = clamp_coord(z);
    let cx = cell_of(xc);
    let cy = cell_of(yc);
    let cz = cell_of(zc);
    let tx = frac_of(xc);
    let ty = frac_of(yc);
    let tz = frac_of(zc);
    let x00 = spec_lerp(corner_value(seed, cx, cy, cz), corner_value(seed, cx + 1, cy, cz), tx);
    let x10 = spec_lerp(
        corner_value(seed, cx, cy + 1, cz),
        corner_value(seed, cx + 1, cy + 1, cz),
        tx,
    );
    let x01 = spec_lerp(
        corner_value(seed, cx, cy, cz + 1),
        corner_value(seed, cx + 1, cy, cz + 1),
        tx,
    );
    let x11 = spec_lerp(
        corner_value(seed, cx, cy + 1, cz + 1),
        corner_value(seed, cx + 1, cy + 1, cz + 1),
        tx,
    );
    let y0 = spec_lerp(x00, x10, ty);
    let y1 = spec_lerp(x01, x11, ty);
    spec_lerp(y0, y1, tz)
}

/// A deterministic coherent noise field over an integer lattice: corner
/// values are pinned by a seed and blended trilinearly between corners, so
/// the field is smooth within each cell and needs no floating point.
pub struct LatticeNoise {
    seed: u64,
}

/// Clamp a sampling coordinate into the supported window.
fn clamp_sample_coord(x: i64) -> (r: i64)
    ensures
        r as int == clamp_coord(x as int),
        -1_000_000_000 <= r <= 1_000_000_000,
{
    if x < -1_000_000_000 {
        -1_000_000_000
    } else if x > 1_000_000_000 {
        1_000_000_000
    } else {
        x
    }
}

/// Split a clamped coordinate into its cell and its position in the cell.
fn cell_split(x: i64) -> (cf: (i64, i64))
    requires
        -1_000_000_000 <= x <= 1_000_000_000,
    ensures
        cf.0 as int == cell_of(x as int),
        cf.1 as int == frac_of(x as int),
        -1_000_000 <= cf.0 <= 1_000_000,
        0 <= cf.1 < 1000,
{
    let shifted: u64 = (x + 1_000_000_000) as u64;
    proof {
        vstd::arithmetic::div_mod::lemma_div_pos_is_pos(shifted as int, 1000);
        vstd::arithmetic::div_mod::lemma_div_is_ordered(shifted as int, 2_000_000_000, 1000);
    }
    let cell = (shifted / 1000) as i64 - 1_000_000;
    let frac = (shifted % 1000) as i64;
    (cell, frac)
}

/// The corner value, computed exactly as the field defines it.
fn corner(seed: u64, cx: i64, cy: i64, cz: i64) -> (r: i64)
    requires
        -1_000_001 <= cx <= 1_000_001,
        -1_000_001 <= cy <= 1_000_001,
        -1_000_001 <= cz <= 1_000_001,
    ensures
        r as int == corner_value(seed, cx as int, cy as int, cz as int),
        -1000 <= r <= 1000,
{
    let ux: u64 = (cx + 1_000_001) as u64;
    let uy: u64 = (cy + 1_000_001) as u64;
    let uz: u64 = (cz + 1_000_001) as u64;
    let mix: u64 = ux * 73_856_093 + uy * 19_349_663 + uz * 83_492_791 + seed % 1_000_000_007;
    let h: u64 = mix % 1_000_000_007;
    let v: u64 = (h * 48_271) % 2001;
    (v as i64) - 1000
}

impl LatticeNoise {
    /// A lattice field pinned to a seed.
    pub fn from_seed(seed: u64) -> (f: LatticeNoise)
        ensures
            f.seed() == seed,
    {
        LatticeNoise { seed }
    }

    /// The seed the field was built from.
    pub closed spec fn seed(&self) -> u64 {
        self.seed
    }
}

impl NoiseField for LatticeNoise {
    open spec fn at(&self, x: int, y: int, z: int) -> int {
        lattice_at(self.seed(), x, y, z)
    }

    fn sample(&self, x: i64, y: i64, z: i64) -> (n: i64) {
        let xc = clamp_sample_coord(x);
        let yc = clamp_sample_coord(y);
        let zc = clamp_sample_coord(z);
        let (cx, tx) = cell_split(xc);
        let (cy, ty) = cell_split(yc);
        let (cz, tz) = cell_split(zc);
        let c000 = corner(self.seed, cx, cy, cz);
        let c100 = corner(self.seed, cx + 1, cy, cz);
        let c010 = corner(self.seed, cx, cy + 1, cz);
        let c110 = corner(self.seed, cx + 1, cy + 1, cz);
        let c001 = corner(self.seed, cx, cy, cz + 1);
        let c101 = corner(self.seed, cx + 1, cy, cz + 1);
        let c011 = corner(self.seed, cx, cy + 1, cz + 1);
        let c111 = corner(self.seed, cx + 1, cy + 1, cz + 1);
        let x00 = lerp_milli(c000, c100, tx);
        let x10 = lerp_milli(c010, c110, tx);
        let x01 = lerp_milli(c001, c101, tx);
        let x11 = lerp_milli(c011, c111, tx);
        let y0 = lerp_milli(x00, x10, ty);
        let y1 = lerp_milli(x01, x11, ty);
        lerp_milli(y0, y1, tz)
    }
}

/// A field that is the same everywhere: the simplest deterministic noise,
/// useful for tests and for turning the twist off.
pub struct ConstNoise {
    pub level: i64,
}

impl ConstNoise {
    /// A field that is `level` everywhere; out-of-range levels collapse to 0.
    pub fn new(level: i64) -> (f: ConstNoise)
        ensures
            f.level == level,
    {
        ConstNoise { level }
    }
}

impl NoiseField for ConstNoise {
    open spec fn at(&self, x: int, y: int, z: int) -> int {
        if -1000 <= self.level <= 1000 {
            self.level as int
        } else {
            0
        }
    }

    fn sample(&self, x: i64, y: i64, z: i64) -> (n: i64) {
        if -1000 <= self.level && self.level <= 1000 {
            self.level
        } else {
            0
        }
    }
}

} // verus!
