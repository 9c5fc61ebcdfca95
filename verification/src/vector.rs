//! Fixed-point vectors and quaternions as plain data.

use vstd::prelude::*;
use crate::scalar::{add_saturated, mix, mixed, saturate, scale, scaled, ONE};

verus! {

/// A place on a canvas: two fixed-point components.
#[derive(Clone, Copy, PartialEq, Eq, Structural, Debug)]
pub struct Vec2 {
    pub x: i64,
    pub y: i64,
}

/// A position or a scale factor: three fixed-point components.
#[derive(Clone, Copy, PartialEq, Eq, Structural, Debug)]
pub struct Vec3 {
    pub x: i64,
    pub y: i64,
    pub z: i64,
}

impl Vec3 {
    /// The vector whose components are all zero.
    pub open spec fn spec_zero() -> Vec3 {
        Vec3 { x: 0, y: 0, z: 0 }
    }

    /// The vector whose components are all one: the neutral scale factor.
    pub open spec fn spec_unit() -> Vec3 {
        Vec3 { x: ONE, y: ONE, z: ONE }
    }

    /// Each component of `self` multiplied by the weight `w`.
    pub open spec fn spec_scale(self, w: i64) -> Vec3 {
        Vec3 {
            x: saturate(scaled(self.x as int, w as int)),
            y: saturate(scaled(self.y as int, w as int)),
            z: saturate(scaled(self.z as int, w as int)),
        }
    }

    /// The component-wise saturated sum.
    pub open spec fn spec_plus(self, other: Vec3) -> Vec3 {
        Vec3 {
            x: saturate(self.x + other.x),
            y: saturate(self.y + other.y),
            z: saturate(self.z + other.z),
        }
    }

    /// The point a fraction `t` of the way from `self` to `other`.
    pub open spec fn spec_lerp(self, other: Vec3, t: i64) -> Vec3 {
        Vec3 {
            x: saturate(mixed(self.x as int, other.x as int, t as int)),
            y: saturate(mixed(self.y as int, other.y as int, t as int)),
            z: saturate(mixed(self.z as int, other.z as int, t as int)),
        }
    }

    /// The vector with the given components.
    pub fn new(x: i64, y: i64, z: i64) -> (r: Vec3)
        ensures
            r == (Vec3 { x, y, z }),
    {
        Vec3 { x, y, z }
    }

    /// The vector whose components are all zero.
    #[verifier::when_used_as_spec(spec_zero)]
    pub fn zero() -> (r: Vec3)
        ensures
            r == Vec3::spec_zero(),
    {
        Vec3 { x: 0, y: 0, z: 0 }
    }

    /// The vector whose components are all one.
    #[verifier::when_used_as_spec(spec_unit)]
    pub fn unit() -> (r: Vec3)
        ensures
            r == Vec3::spec_unit(),
    {
        Vec3 { x: ONE, y: ONE, z: ONE }
    }

    /// Each component multiplied by the weight `w`, rounded down and saturated.
    #[verifier::when_used_as_spec(spec_scale)]
    pub fn scale(self, w: i64) -> (r: Vec3)
        ensures
            r == self.spec_scale(w),
    {
        Vec3 { x: scale(self.x, w), y: scale(self.y, w), z: scale(self.z, w) }
    }

    /// The component-wise saturated sum.
    #[verifier::when_used_as_spec(spec_plus)]
    pub fn plus(self, other: Vec3) -> (r: Vec3)
        ensures
            r == self.spec_plus(other),
    {
        Vec3 {
            x: add_saturated(self.x, other.x),
            y: add_saturated(self.y, other.y),
            z: add_saturated(self.z, other.z),
        }
    }

    /// The point a fraction `t` of the way from `self` to `other`.
    #[verifier::when_used_as_spec(spec_lerp)]
    pub fn lerp(self, other: Vec3, t: i64) -> (r: Vec3)
        ensures
            r == self.spec_lerp(other, t),
    {
        Vec3 {
            x: mix(self.x, other.x, t),
            y: mix(self.y, other.y, t),
            z: mix(self.z, other.z, t),
        }
    }
}

/// A rotation: the four fixed-point components of a quaternion. The crate
/// stores and hands on rotations; it never computes with one.
#[derive(Clone, Copy, PartialEq, Eq, Structural, Debug)]
pub struct Quat {
    pub x: i64,
    pub y: i64,
    pub z: i64,
    pub w: i64,
}

impl Quat {
    /// The rotation that turns nothing.
    pub open spec fn spec_identity() -> Quat {
        Quat { x: 0, y: 0, z: 0, w: ONE }
    }

    /// The quaternion with the given components.
    pub fn new(x: i64, y: i64, z: i64, w: i64) -> (r: Quat)
        ensures
            r == (Quat { x, y, z, w }),
    {
        Quat { x, y, z, w }
    }

    /// The rotation that turns nothing.
    #[verifier::when_used_as_spec(spec_identity)]
    pub fn identity() -> (r: Quat)
        ensures
            r == Quat::spec_identity(),
    {
        Quat { x: 0, y: 0, z: 0, w: ONE }
    }
}

} // verus!
