//! What a ray can hit, and what is known of the hit.

use vstd::prelude::*;
use std::sync::Arc;
use crate::aabb::Aabb;
use crate::ray::Ray;
use crate::scalar::Scalar;
use crate::vec2::Vec2;
use crate::vec3::Vec3;

verus! {

/// A hit of a ray on a surface of material `M`.
pub struct HitRecord<M: ?Sized> {
    pub point: Vec3,
    /// The surface normal, turned against the incoming ray.
    pub normal: Vec3,
    /// The ray's parameter at the hit.
    pub t: Scalar,
    pub is_front_face: bool,
    /// In the range from 0 to 1, starting at the bottom left.
    pub texture_coord: Vec2,
    pub material: Arc<M>,
}

impl<M: ?Sized> HitRecord<M> {
    /// A hit at `point`. `facing` is the dot product of the ray's direction
    /// and the outward normal: below zero the ray meets the front face and
    /// the normal is kept, otherwise the normal is flipped.
    pub fn new(
        point: Vec3,
        facing: Scalar,
        outward_normal: Vec3,
        t: Scalar,
        texture_coord: Vec2,
        material: Arc<M>,
    ) -> (out: HitRecord<M>)
        ensures
            out.point == point,
            out.t == t,
            out.texture_coord == texture_coord,
            out.material == material,
            out.is_front_face == facing.lt(Scalar::zero()),
            out.normal == if facing.lt(Scalar::zero()) {
                outward_normal
            } else {
                outward_normal.neg()
            },
    {
        let is_front_face = facing.lt(Scalar::zero());
        let normal = if is_front_face {
            outward_normal
        } else {
            outward_normal.neg()
        };
        HitRecord { point, normal, t, is_front_face, texture_coord, material }
    }
}

/// A shape, or a composite of shapes.
///
/// An implementation says with `may_hit` and `may_bound` which answers its
/// methods can give. One that says nothing promises nothing.
pub trait Hittable: Send + Sync {
    type Material: ?Sized;

    /// Whether `hit` may answer `out` to this ray and interval.
    open spec fn may_hit(
        &self,
        ray: Ray,
        t_min: Scalar,
        t_max: Scalar,
        out: Option<HitRecord<Self::Material>>,
    ) -> bool {
        true
    }

    /// Whether `bounding_box` may answer `out`.
    open spec fn may_bound(&self, out: Option<Aabb>) -> bool {
        true
    }

    /// The nearest hit of the ray between `t_min` and `t_max`, if there is
    /// one.
    fn hit(&self, ray: &Ray, t_min: Scalar, t_max: Scalar) -> (out: Option<
        HitRecord<Self::Material>,
    >)
        ensures
            self.may_hit(*ray, t_min, t_max, out),
    ;

    /// A box around the shape. A shape without bounds has none.
    fn bounding_box(&self) -> (out: Option<Aabb>)
        ensures
            self.may_bound(out),
    ;
}

} // verus!
