//! A ray: where it starts and which way it goes.

use vstd::prelude::*;
use crate::vec3::Vec3;

verus! {

/// A half line: the points `origin + t * direction`.
#[derive(Clone, Copy, Debug)]
pub struct Ray {
    pub origin: Vec3,
    /// Not required to be of unit length.
    pub direction: Vec3,
}

impl Ray {
    pub fn new(origin: Vec3, direction: Vec3) -> (out: Ray)
        ensures
            out == (Ray { origin, direction }),
    {
        Ray { origin, direction }
    }
}

} // verus!
