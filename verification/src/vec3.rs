//! Three numbers: a point, a direction or a colour.

use vstd::prelude::*;
use crate::scalar::Scalar;

verus! {

/// The bit pattern of `1e-8`, below which the magnitude of a component
/// counts as zero.
pub const NEAR_ZERO_BITS: u32 = 0x322b_cc77;

/// A triple of numbers.
#[derive(Clone, Copy, Debug)]
pub struct Vec3 {
    pub x: Scalar,
    pub y: Scalar,
    pub z: Scalar,
}

/// Red, green and blue.
pub type Color = Vec3;

/// A point in space.
pub type Pt3 = Vec3;

impl Vec3 {
    /// The component on an axis: 0 for x, 1 for y, 2 for z.
    pub open spec fn spec_get(self, axis: int) -> Scalar {
        if axis == 0 {
            self.x
        } else if axis == 1 {
            self.y
        } else {
            self.z
        }
    }

    /// Whether no component is a NaN.
    pub open spec fn numeric(self) -> bool {
        !self.x.nan() && !self.y.nan() && !self.z.nan()
    }

    pub fn new(x: Scalar, y: Scalar, z: Scalar) -> (out: Vec3)
        ensures
            out == (Vec3 { x, y, z }),
    {
        Vec3 { x, y, z }
    }

    pub fn all(all: Scalar) -> (out: Vec3)
        ensures
            out == (Vec3 { x: all, y: all, z: all }),
    {
        Vec3 { x: all, y: all, z: all }
    }

    /// The component on an axis, which must be 0, 1 or 2.
    pub fn get(&self, axis: usize) -> (out: Scalar)
        requires
            axis < 3,
        ensures
            out == self.spec_get(axis as int),
    {
        if axis == 0 {
            self.x
        } else if axis == 1 {
            self.y
        } else {
            self.z
        }
    }

    /// The vector with one component replaced.
    pub open spec fn spec_with(self, axis: int, value: Scalar) -> Vec3 {
        if axis == 0 {
            Vec3 { x: value, ..self }
        } else if axis == 1 {
            Vec3 { y: value, ..self }
        } else {
            Vec3 { z: value, ..self }
        }
    }

    /// Replaces the component on an axis, which must be 0, 1 or 2.
    pub fn set(&mut self, axis: usize, value: Scalar)
        requires
            axis < 3,
        ensures
            *final(self) == old(self).spec_with(axis as int, value),
    {
        if axis == 0 {
            self.x = value;
        } else if axis == 1 {
            self.y = value;
        } else {
            self.z = value;
        }
    }

    /// The vector of what the function makes of each component.
    pub fn applied<F: Fn(Scalar) -> Scalar>(&self, function: F) -> (out: Vec3)
        requires
            call_requires(function, (self.x,)),
            call_requires(function, (self.y,)),
            call_requires(function, (self.z,)),
        ensures
            call_ensures(function, (self.x,), out.x),
            call_ensures(function, (self.y,), out.y),
            call_ensures(function, (self.z,), out.z),
    {
        Vec3 { x: function(self.x), y: function(self.y), z: function(self.z) }
    }

    /// Puts in place of each component what the function makes of it, and
    /// gives the vector back.
    pub fn apply<F: Fn(Scalar) -> Scalar>(&mut self, function: F) -> (out: &Vec3)
        requires
            call_requires(function, (old(self).x,)),
            call_requires(function, (old(self).y,)),
            call_requires(function, (old(self).z,)),
        ensures
            call_ensures(function, (old(self).x,), final(self).x),
            call_ensures(function, (old(self).y,), final(self).y),
            call_ensures(function, (old(self).z,), final(self).z),
            *out == *final(self),
    {
        self.x = function(self.x);
        self.y = function(self.y);
        self.z = function(self.z);
        self
    }

    /// Whether two vectors are equal, component by component, as numbers
    /// are: a NaN equals nothing, and the two zeros are equal.
    pub open spec fn spec_same(self, other: Vec3) -> bool {
        self.x.same(other.x) && self.y.same(other.y) && self.z.same(other.z)
    }

    #[verifier::when_used_as_spec(spec_same)]
    pub fn same(self, other: Vec3) -> (out: bool)
        ensures
            out == self.spec_same(other),
    {
        self.x.same(other.x) && self.y.same(other.y) && self.z.same(other.z)
    }

    /// The world's up direction, `(0, -1, 0)`.
    pub fn up() -> (out: Vec3)
        ensures
            out == (Vec3 { x: Scalar::zero(), y: Scalar::one().neg(), z: Scalar::zero() }),
    {
        Vec3 { x: Scalar::zero(), y: Scalar::one().neg(), z: Scalar::zero() }
    }

    /// The world's down direction, `(0, 1, 0)`.
    pub fn down() -> (out: Vec3)
        ensures
            out == (Vec3 { x: Scalar::zero(), y: Scalar::one(), z: Scalar::zero() }),
    {
        Vec3 { x: Scalar::zero(), y: Scalar::one(), z: Scalar::zero() }
    }

    /// The vector with the sign of each component flipped.
    pub open spec fn spec_neg(self) -> Vec3 {
        Vec3 { x: self.x.neg(), y: self.y.neg(), z: self.z.neg() }
    }

    #[verifier::when_used_as_spec(spec_neg)]
    pub fn neg(self) -> (out: Vec3)
        ensures
            out == self.spec_neg(),
    {
        Vec3 { x: self.x.neg(), y: self.y.neg(), z: self.z.neg() }
    }

    /// Whether the vector is near zero: every component lies within `1e-8`
    /// of zero. A vector with a NaN is not.
    pub open spec fn spec_is_near_zero(&self) -> bool {
        let epsilon = Scalar { bits: NEAR_ZERO_BITS };
        self.x.abs().lt(epsilon) && self.y.abs().lt(epsilon) && self.z.abs().lt(epsilon)
    }

    #[verifier::when_used_as_spec(spec_is_near_zero)]
    pub fn is_near_zero(&self) -> (out: bool)
        ensures
            out == self.spec_is_near_zero(),
    {
        let epsilon = Scalar::from_bits(NEAR_ZERO_BITS);
        self.x.abs().lt(epsilon) && self.y.abs().lt(epsilon) && self.z.abs().lt(epsilon)
    }
}

} // verus!
