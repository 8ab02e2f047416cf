//! Two numbers: a place on a surface.

use vstd::prelude::*;
use crate::scalar::Scalar;

verus! {

/// A pair of numbers.
#[derive(Clone, Copy, Debug)]
pub struct Vec2 {
    pub x: Scalar,
    pub y: Scalar,
}

impl Vec2 {
    pub fn new(x: Scalar, y: Scalar) -> (out: Vec2)
        ensures
            out == (Vec2 { x, y }),
    {
        Vec2 { x, y }
    }

    /// The vector of what the function makes of each component.
    pub fn applied<F: Fn(Scalar) -> Scalar>(&self, function: F) -> (out: Vec2)
        requires
            call_requires(function, (self.x,)),
            call_requires(function, (self.y,)),
        ensures
            call_ensures(function, (self.x,), out.x),
            call_ensures(function, (self.y,), out.y),
    {
        Vec2 { x: function(self.x), y: function(self.y) }
    }

    /// Puts in place of each component what the function makes of it, and
    /// gives the vector back.
    pub fn apply<F: Fn(Scalar) -> Scalar>(&mut self, function: F) -> (out: &Vec2)
        requires
            call_requires(function, (old(self).x,)),
            call_requires(function, (old(self).y,)),
        ensures
            call_ensures(function, (old(self).x,), final(self).x),
            call_ensures(function, (old(self).y,), final(self).y),
            *out == *final(self),
    {
        self.x = function(self.x);
        self.y = function(self.y);
        self
    }
}

} // verus!
