//! Plain-value geometry for the mesh editor.
//!
//! Positions are fixed-point vectors: each coordinate is an `i64` counting
//! units of `1 / COORD_ONE`. Colors are four raw `u32` channels. Interpolation
//! ratios are fractions over `RATIO_ONE`, so a ratio `t` stands for the real
//! number `t / RATIO_ONE`.

use vstd::prelude::*;
use vstd::arithmetic::div_mod::lemma_div_is_ordered;
use vstd::arithmetic::mul::lemma_mul_inequality;

verus! {

/// Denominator of interpolation ratios: a ratio `t` means `t / RATIO_ONE`.
pub const RATIO_ONE: u32 = 65536;

/// One geometric unit, in fixed-point coordinate steps.
pub const COORD_ONE: i64 = 65536;

/// A fixed-point position or translation vector.
#[derive(Clone, Copy, Debug, PartialEq, Eq, Structural)]
pub struct Vec3 {
    pub x: i64,
    pub y: i64,
    pub z: i64,
}

/// A vertex color: four raw channel values.
#[derive(Clone, Copy, Debug, PartialEq, Eq, Structural)]
pub struct Rgba {
    pub r: u32,
    pub g: u32,
    pub b: u32,
    pub a: u32,
}

impl Vec3 {
    pub fn zero() -> (r: Vec3)
        ensures
            r == (Vec3 { x: 0, y: 0, z: 0 }),
    {
        Vec3 { x: 0, y: 0, z: 0 }
    }
}

impl Rgba {
    pub fn zero() -> (r: Rgba)
        ensures
            r == (Rgba { r: 0, g: 0, b: 0, a: 0 }),
    {
        Rgba { r: 0, g: 0, b: 0, a: 0 }
    }
}

/// Whether the coordinate-wise sum of two vectors stays within `i64`.
pub open spec fn coord_add_in_range(a: int, b: int) -> bool {
    i64::MIN <= a + b <= i64::MAX
}

pub open spec fn vec3_add_in_range(a: Vec3, b: Vec3) -> bool {
    &&& coord_add_in_range(a.x as int, b.x as int)
    &&& coord_add_in_range(a.y as int, b.y as int)
    &&& coord_add_in_range(a.z as int, b.z as int)
}

/// Coordinate-wise sum; meaningful when `vec3_add_in_range` holds.
pub open spec fn vec3_add(a: Vec3, b: Vec3) -> Vec3 {
    Vec3 {
        x: (a.x + b.x) as i64,
        y: (a.y + b.y) as i64,
        z: (a.z + b.z) as i64,
    }
}

/// Sum of two vectors, or `None` if any coordinate would overflow.
pub fn checked_vec3_add(a: Vec3, b: Vec3) -> (r: Option<Vec3>)
    ensures
        r is Some <==> vec3_add_in_range(a, b),
        r is Some ==> r->0 == vec3_add(a, b),
{
    let x = checked_coord_add(a.x, b.x);
    let y = checked_coord_add(a.y, b.y);
    let z = checked_coord_add(a.z, b.z);
    match (x, y, z) {
        (Some(x), Some(y), Some(z)) => Some(Vec3 { x, y, z }),
        _ => None,
    }
}

fn checked_coord_add(a: i64, b: i64) -> (r: Option<i64>)
    ensures
        r is Some <==> coord_add_in_range(a as int, b as int),
        r is Some ==> r->0 == a + b,
{
    let s: i128 = a as i128 + b as i128;
    if i64::MIN as i128 <= s && s <= i64::MAX as i128 {
        Some(s as i64)
    } else {
        None
    }
}

/// Linear interpolation of one coordinate: the point a fraction `t / RATIO_ONE`
/// of the way from `a` to `b`, rounded toward `a`. Always lies between `a` and
/// `b`, so it never overflows.
pub open spec fn lerp_coord_spec(a: int, b: int, t: int) -> int {
    if b >= a {
        a + (b - a) * t / (RATIO_ONE as int)
    } else {
        a - (a - b) * t / (RATIO_ONE as int)
    }
}

/// Coordinate-wise linear interpolation between two positions.
pub open spec fn lerp_vec3_spec(a: Vec3, b: Vec3, t: int) -> Vec3 {
    Vec3 {
        x: lerp_coord_spec(a.x as int, b.x as int, t) as i64,
        y: lerp_coord_spec(a.y as int, b.y as int, t) as i64,
        z: lerp_coord_spec(a.z as int, b.z as int, t) as i64,
    }
}

proof fn lemma_scaled_fraction_bounds(d: int, t: int)
    requires
        0 <= d,
        0 <= t <= RATIO_ONE as int,
    ensures
        0 <= d * t / (RATIO_ONE as int) <= d,
{
    let one = RATIO_ONE as int;
    lemma_mul_inequality(t, one, d);
    assert(d * t == t * d) by (nonlinear_arith);
    assert(d * one == one * d) by (nonlinear_arith);
    lemma_div_is_ordered(d * t, d * one, one);
    assert(d * one / one == d) by (nonlinear_arith)
        requires
            one > 0,
    ;
    assert(d * t >= 0) by (nonlinear_arith)
        requires
            d >= 0,
            t >= 0,
    ;
    lemma_div_is_ordered(0, d * t, one);
}

fn lerp_coord(a: i64, b: i64, t: u32) -> (r: i64)
    requires
        t <= RATIO_ONE,
    ensures
        r == lerp_coord_spec(a as int, b as int, t as int),
        a <= b ==> a <= r <= b,
        b < a ==> b <= r <= a,
{
    let one: u128 = RATIO_ONE as u128;
    if b >= a {
        let d: u128 = (b as i128 - a as i128) as u128;
        proof {
            assert(d <= 0xffff_ffff_ffff_ffffu128);
            lemma_mul_inequality(t as int, RATIO_ONE as int, d as int);
            assert(d as int * (t as int) == (t as int) * (d as int)) by (nonlinear_arith);
            assert(d as int * (RATIO_ONE as int) == (RATIO_ONE as int) * (d as int))
                by (nonlinear_arith);
            assert(d as int * (RATIO_ONE as int) <= 0xffff_ffff_ffff_ffff * 65536)
                by (nonlinear_arith)
                requires
                    d <= 0xffff_ffff_ffff_ffffu128,
            ;
            lemma_scaled_fraction_bounds(d as int, t as int);
        }
        let q: u128 = d * (t as u128) / one;
        (a as i128 + q as i128) as i64
    } else {
        let d: u128 = (a as i128 - b as i128) as u128;
        proof {
            assert(d <= 0xffff_ffff_ffff_ffffu128);
            lemma_mul_inequality(t as int, RATIO_ONE as int, d as int);
            assert(d as int * (t as int) == (t as int) * (d as int)) by (nonlinear_arith);
            assert(d as int * (RATIO_ONE as int) == (RATIO_ONE as int) * (d as int))
                by (nonlinear_arith);
            assert(d as int * (RATIO_ONE as int) <= 0xffff_ffff_ffff_ffff * 65536)
                by (nonlinear_arith)
                requires
                    d <= 0xffff_ffff_ffff_ffffu128,
            ;
            lemma_scaled_fraction_bounds(d as int, t as int);
        }
        let q: u128 = d * (t as u128) / one;
        (a as i128 - q as i128) as i64
    }
}

/// The point a fraction `t / RATIO_ONE` of the way from `a` to `b`,
/// coordinate by coordinate.
pub fn lerp_vec3(a: Vec3, b: Vec3, t: u32) -> (r: Vec3)
    requires
        t <= RATIO_ONE,
    ensures
        r == lerp_vec3_spec(a, b, t as int),
{
    Vec3 {
        x: lerp_coord(a.x, b.x, t),
        y: lerp_coord(a.y, b.y, t),
        z: lerp_coord(a.z, b.z, t),
    }
}

} // verus!
