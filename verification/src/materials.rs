//! Materials: what becomes of a ray where it hits a surface.

use vstd::prelude::*;
use std::sync::Arc;
use crate::hittable::HitRecord;
use crate::ray::Ray;
use crate::scalar::Scalar;
use crate::textures::{SolidColor, Texture};
use crate::vec2::Vec2;
use crate::vec3::{Color, Pt3, Vec3};

verus! {

/// The ray that leaves a surface, and what the surface takes from the light
/// that comes back along it, colour by colour.
#[derive(Clone, Copy, Debug)]
pub struct ScatterRecord {
    pub ray: Ray,
    pub attenuation: Vec3,
}

impl ScatterRecord {
    pub fn new(ray: &Ray, attenuation: Vec3) -> (out: ScatterRecord)
        ensures
            out == (ScatterRecord { ray: *ray, attenuation }),
    {
        ScatterRecord { ray: *ray, attenuation }
    }
}

/// The colour without light: `(0, 0, 0)`.
pub open spec fn black() -> Color {
    Vec3 { x: Scalar::zero(), y: Scalar::zero(), z: Scalar::zero() }
}

/// A material. An implementation says with `may_scatter` and `may_emit`
/// which answers its methods can give; one that says nothing promises
/// nothing.
pub trait Material: Send + Sync {
    /// Whether `scatter` may answer `out`.
    open spec fn may_scatter(&self, ray: Ray, hit_record: HitRecord<Self>, out: Option<ScatterRecord>) -> bool {
        true
    }

    /// Whether `color_emmited` may answer `out`.
    open spec fn may_emit(&self, uv: Vec2, hit_point: Pt3, out: Color) -> bool {
        true
    }

    /// The ray that leaves the surface, or none where the surface keeps the
    /// light or only gives light.
    fn scatter(&self, ray: &Ray, hit_record: &HitRecord<Self>) -> (out: Option<ScatterRecord>)
        ensures
            self.may_scatter(*ray, *hit_record, out),
    ;

    /// The light that the surface gives of itself: black for a surface that
    /// gives none.
    fn color_emmited(&self, uv: Vec2, hit_point: Pt3) -> (out: Color)
        ensures
            self.may_emit(uv, hit_point, out),
    ;
}

/// A light: it scatters nothing and gives the colour of its texture.
pub struct DiffuseLight<T: Texture + ?Sized> {
    pub emit: Arc<T>,
}

impl<T: Texture + ?Sized> DiffuseLight<T> {
    pub fn new(emit: Arc<T>) -> (out: DiffuseLight<T>)
        ensures
            out.emit == emit,
    {
        DiffuseLight { emit }
    }
}

impl<T: Texture + ?Sized> Material for DiffuseLight<T> {
    open spec fn may_scatter(&self, ray: Ray, hit_record: HitRecord<Self>, out: Option<ScatterRecord>) -> bool {
        out is None
    }

    open spec fn may_emit(&self, uv: Vec2, hit_point: Pt3, out: Color) -> bool {
        self.emit.may_color(uv, hit_point, out)
    }

    fn scatter(&self, ray: &Ray, hit_record: &HitRecord<Self>) -> (out: Option<ScatterRecord>) {
        None
    }

    fn color_emmited(&self, uv: Vec2, hit_point: Pt3) -> (out: Color) {
        self.emit.color(uv, hit_point)
    }
}

/// A matt surface: it scatters to all sides, most of it along the normal,
/// and colours the light with its texture.
pub struct Lambertian<T: Texture + ?Sized> {
    pub albedo: Arc<T>,
}

impl<T: Texture + ?Sized> Lambertian<T> {
    pub fn new(texture: Arc<T>) -> (out: Lambertian<T>)
        ensures
            out.albedo == texture,
    {
        Lambertian { albedo: texture }
    }

    /// The scattered ray, where `bounced` is the normal plus a random unit
    /// vector. Where that sum is near zero, every component of it, the ray
    /// leaves along the normal, so that it has a direction.
    pub fn scatter_toward<M: ?Sized>(&self, bounced: Vec3, hit_record: &HitRecord<M>) -> (out: ScatterRecord)
        ensures
            out.ray.origin == hit_record.point,
            out.ray.direction == if bounced.is_near_zero() {
                hit_record.normal
            } else {
                bounced
            },
            self.albedo.may_color(hit_record.texture_coord, hit_record.point, out.attenuation),
            !hit_record.normal.is_near_zero() ==> !out.ray.direction.is_near_zero(),
    {
        let scatter_direction = if bounced.is_near_zero() {
            hit_record.normal
        } else {
            bounced
        };
        ScatterRecord::new(
            &Ray::new(hit_record.point, scatter_direction),
            self.albedo.color(hit_record.texture_coord, hit_record.point),
        )
    }

    /// The light that the surface gives of itself: none.
    pub fn color_emmited(&self, uv: Vec2, hit_point: Pt3) -> (out: Color)
        ensures
            out == black(),
    {
        Vec3::all(Scalar::zero())
    }
}

impl Lambertian<SolidColor> {
    /// A matt surface of one colour.
    pub fn from_color(albedo: Vec3) -> (out: Lambertian<SolidColor>)
        ensures
            out.albedo.color == albedo,
    {
        Lambertian::new(Arc::new(SolidColor::new(albedo)))
    }
}

/// A mirror, the more blurred the larger `fuzz` is.
pub struct Metal {
    pub albedo: Vec3,
    /// At most 1.
    pub fuzz: Scalar,
}

impl Metal {
    /// A mirror of this colour. A `fuzz` that is not below 1 counts as 1.
    pub fn new(color: &Vec3, fuzz: Scalar) -> (out: Metal)
        ensures
            out.albedo == *color,
            out.fuzz == if fuzz.lt(Scalar::one()) {
                fuzz
            } else {
                Scalar::one()
            },
            out.fuzz.le(Scalar::one()),
    {
        Metal {
            albedo: *color,
            fuzz: if fuzz.lt(Scalar::one()) {
                fuzz
            } else {
                Scalar::one()
            },
        }
    }

    /// The scattered ray, where `reflected` is the mirrored direction with
    /// the blur added and `facing` its dot product with the normal. A
    /// direction that does not point away from the surface scatters nothing.
    pub fn scatter_toward<M: ?Sized>(&self, reflected: Vec3, facing: Scalar, hit_record: &HitRecord<M>) -> (out:
        Option<ScatterRecord>)
        ensures
            out == if facing.gt(Scalar::zero()) {
                Some(
                    ScatterRecord {
                        ray: Ray { origin: hit_record.point, direction: reflected },
                        attenuation: self.albedo,
                    },
                )
            } else {
                None
            },
    {
        if facing.gt(Scalar::zero()) {
            Some(ScatterRecord::new(&Ray::new(hit_record.point, reflected), self.albedo))
        } else {
            None
        }
    }

    /// The light that the surface gives of itself: none.
    pub fn color_emmited(&self, uv: Vec2, hit_point: Pt3) -> (out: Color)
        ensures
            out == black(),
    {
        Vec3::all(Scalar::zero())
    }
}

/// Glass, water: a surface that lets light through and bends it.
pub struct Dielectric {
    pub index_of_refraction: Scalar,
}

impl Dielectric {
    pub fn new(index_of_refraction: Scalar) -> (out: Dielectric)
        ensures
            out.index_of_refraction == index_of_refraction,
    {
        Dielectric { index_of_refraction }
    }

    /// Whether a ray is thrown back: it is where it comes in too flat to be
    /// bent, the sine of the bent ray being above 1, and where the share of
    /// light that the surface throws back is above the sample drawn.
    pub open spec fn reflects(refracted_sine: Scalar, reflectance: Scalar, sample: Scalar) -> bool {
        refracted_sine.gt(Scalar::one()) || reflectance.gt(sample)
    }

    /// The scattered ray: `reflected` where the ray is thrown back,
    /// otherwise `refracted`. Nothing is taken from the light.
    pub fn scatter_either<M: ?Sized>(
        &self,
        refracted_sine: Scalar,
        reflectance: Scalar,
        sample: Scalar,
        reflected: Vec3,
        refracted: Vec3,
        hit_record: &HitRecord<M>,
    ) -> (out: ScatterRecord)
        ensures
            out.ray.origin == hit_record.point,
            out.ray.direction == if Self::reflects(refracted_sine, reflectance, sample) {
                reflected
            } else {
                refracted
            },
            out.attenuation == (Vec3 { x: Scalar::one(), y: Scalar::one(), z: Scalar::one() }),
    {
        let cannot_refract = refracted_sine.gt(Scalar::one());
        let direction = if cannot_refract || reflectance.gt(sample) {
            reflected
        } else {
            refracted
        };
        ScatterRecord::new(&Ray::new(hit_record.point, direction), Vec3::all(Scalar::one()))
    }

    /// The light that the surface gives of itself: none.
    pub fn color_emmited(&self, uv: Vec2, hit_point: Pt3) -> (out: Color)
        ensures
            out == black(),
    {
        Vec3::all(Scalar::zero())
    }
}

/// A medium that scatters to all sides alike, such as smoke.
pub struct Isotropic<T: Texture + ?Sized> {
    pub albedo: Arc<T>,
}

impl<T: Texture + ?Sized> Isotropic<T> {
    pub fn new(albedo: Arc<T>) -> (out: Isotropic<T>)
        ensures
            out.albedo == albedo,
    {
        Isotropic { albedo }
    }

    /// The scattered ray, where `direction` is a random point on the unit
    /// sphere.
    pub fn scatter_toward<M: ?Sized>(&self, direction: Vec3, hit_record: &HitRecord<M>) -> (out: ScatterRecord)
        ensures
            out.ray == (Ray { origin: hit_record.point, direction }),
            self.albedo.may_color(hit_record.texture_coord, hit_record.point, out.attenuation),
    {
        ScatterRecord::new(
            &Ray::new(hit_record.point, direction),
            self.albedo.color(hit_record.texture_coord, hit_record.point),
        )
    }

    /// The light that the surface gives of itself: none.
    pub fn color_emmited(&self, uv: Vec2, hit_point: Pt3) -> (out: Color)
        ensures
            out == black(),
    {
        Vec3::all(Scalar::zero())
    }
}

} // verus!
