use vstd::prelude::*;

use vstd::arithmetic::div_mod::{lemma_div_nonincreasing, lemma_div_pos_is_pos};

verus! {

/// Positions live in [-POS_LIMIT, POS_LIMIT] on each axis (fixed-point world
/// units).
pub const POS_LIMIT: i64 = 1099511627776;

/// Velocities are clamped to [-VEL_LIMIT, VEL_LIMIT] on each axis (world
/// units per second).
pub const VEL_LIMIT: i64 = 1073741824;

/// Largest admissible gravity component magnitude (world units per second
/// squared).
pub const GRAV_LIMIT: i64 = 1073741824;

/// Largest admissible collider half-extent (world units).
pub const EXTENT_LIMIT: i64 = 1048576;

/// A two-component fixed-point vector. The build is two-dimensional
/// throughout; the arity is fixed by this type, so a gravity vector of the
/// wrong arity cannot be formed.
#[derive(Clone, Copy, PartialEq, Eq, Structural, Debug)]
pub struct Vec2 {
    pub x: i64,
    pub y: i64,
}

/// Both components within [-limit, limit].
pub open spec fn vec2_in_range(v: Vec2, limit: int) -> bool {
    &&& -limit <= v.x <= limit
    &&& -limit <= v.y <= limit
}

/// Clamp into [-limit, limit].
pub open spec fn clamp_spec(x: int, limit: int) -> int {
    if x > limit {
        limit
    } else if x < -limit {
        -limit
    } else {
        x
    }
}

/// Division rounding toward zero, the behaviour of machine division.
pub open spec fn div_trunc(a: int, d: int) -> int
    recommends
        d >= 1,
{
    if a >= 0 {
        a / d
    } else {
        -((-a) / d)
    }
}

pub fn clamp_to(x: i64, limit: i64) -> (r: i64)
    requires
        limit >= 0,
    ensures
        r == clamp_spec(x as int, limit as int),
{
    if x > limit {
        limit
    } else if x < -limit {
        -limit
    } else {
        x
    }
}

/// Truncating division of a fixed-point quantity by a positive divisor. The
/// result never exceeds the dividend in magnitude and keeps its sign.
pub fn div_by(a: i64, d: u32) -> (r: i64)
    requires
        d >= 1,
        a != i64::MIN,
    ensures
        r == div_trunc(a as int, d as int),
        a >= 0 ==> 0 <= r <= a,
        a < 0 ==> a <= r <= 0,
{
    if a >= 0 {
        let q = (a as u64) / (d as u64);
        proof {
            lemma_div_pos_is_pos(a as int, d as int);
            lemma_div_nonincreasing(a as int, d as int);
        }
        q as i64
    } else {
        let m = -a;
        let q = (m as u64) / (d as u64);
        proof {
            lemma_div_pos_is_pos(m as int, d as int);
            lemma_div_nonincreasing(m as int, d as int);
        }
        -(q as i64)
    }
}

} // verus!
