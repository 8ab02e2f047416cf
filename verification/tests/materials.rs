use raytracer::hittable::HitRecord;
use raytracer::materials::{Dielectric, DiffuseLight, Isotropic, Lambertian, Material, Metal, ScatterRecord};
use raytracer::ray::Ray;
use raytracer::scalar::Scalar;
use raytracer::textures::{CheckerTexture, SolidColor, Texture};
use raytracer::vec2::Vec2;
use raytracer::vec3::Vec3;
use std::sync::Arc;

fn s(value: f32) -> Scalar {
    Scalar::from_bits(value.to_bits())
}

fn f(value: Scalar) -> f32 {
    f32::from_bits(value.to_bits())
}

fn v(x: f32, y: f32, z: f32) -> Vec3 {
    Vec3::new(s(x), s(y), s(z))
}

fn triple(a: Vec3) -> (f32, f32, f32) {
    (f(a.x), f(a.y), f(a.z))
}

fn uv(x: f32, y: f32) -> Vec2 {
    Vec2::new(s(x), s(y))
}

/// A texture whose colour is the place asked for.
struct Echo;

impl Texture for Echo {
    fn color(&self, uv: Vec2, hit_point: Vec3) -> Vec3 {
        Vec3::new(uv.x, uv.y, hit_point.z)
    }
}

fn hit_at<M>(point: Vec3, normal: Vec3, material: M) -> HitRecord<M> {
    HitRecord::new(point, s(-1.0), normal, s(1.0), uv(0.25, 0.5), Arc::new(material))
}

#[test]
fn scatter_record_new_keeps_ray_and_attenuation() {
    let ray = Ray::new(v(1.0, 2.0, 3.0), v(0.0, 1.0, 0.0));
    let record = ScatterRecord::new(&ray, v(0.5, 0.6, 0.7));
    assert_eq!(triple(record.ray.origin), (1.0, 2.0, 3.0));
    assert_eq!(triple(record.ray.direction), (0.0, 1.0, 0.0));
    assert_eq!(triple(record.attenuation), (0.5, 0.6, 0.7));
}

#[test]
fn solid_color_is_the_same_everywhere() {
    let texture = SolidColor::new(v(0.2, 0.3, 0.1));
    assert_eq!(triple(texture.color(uv(0.0, 0.0), v(0.0, 0.0, 0.0))), (0.2, 0.3, 0.1));
    assert_eq!(triple(texture.color(uv(0.9, 0.1), v(5.0, -2.0, 7.0))), (0.2, 0.3, 0.1));
    assert_eq!(triple(texture.color), (0.2, 0.3, 0.1));
}

#[test]
fn checker_picks_the_odd_texture_above_zero_only() {
    let checker = CheckerTexture::new(Arc::new(SolidColor::new(v(1.0, 1.0, 1.0))), Arc::new(SolidColor::new(v(0.0, 0.0, 0.0))));
    let (at, point) = (uv(0.0, 0.0), v(0.0, 0.0, 0.0));
    assert_eq!(triple(checker.color_by(s(0.5), at, point)), (1.0, 1.0, 1.0));
    assert_eq!(triple(checker.color_by(s(1e-30), at, point)), (1.0, 1.0, 1.0));
    assert_eq!(triple(checker.color_by(s(-0.5), at, point)), (0.0, 0.0, 0.0));
    assert_eq!(triple(checker.color_by(s(0.0), at, point)), (0.0, 0.0, 0.0));
    assert_eq!(triple(checker.color_by(s(-0.0), at, point)), (0.0, 0.0, 0.0));
    assert_eq!(triple(checker.color_by(s(f32::NAN), at, point)), (0.0, 0.0, 0.0));
}

#[test]
fn checker_hands_the_place_on_to_its_textures() {
    let checker = CheckerTexture::new(Arc::new(Echo), Arc::new(SolidColor::new(v(0.0, 0.0, 0.0))));
    assert_eq!(triple(checker.color_by(s(1.0), uv(0.25, 0.75), v(1.0, 2.0, 3.0))), (0.25, 0.75, 3.0));
}

#[test]
fn checker_follows_the_sines_of_the_point() {
    let checker = CheckerTexture::new(Arc::new(SolidColor::new(v(1.0, 1.0, 1.0))), Arc::new(SolidColor::new(v(0.0, 0.0, 0.0))));
    let pattern = |p: (f32, f32, f32)| (10.0 * p.0).sin() * (10.0 * p.1).sin() * (10.0 * p.2).sin();
    let lit = (0.1, 0.1, 0.1);
    let dark = (0.1, 0.1, -0.1);
    assert_eq!(f(checker.color_by(s(pattern(lit)), uv(0.0, 0.0), v(lit.0, lit.1, lit.2)).x), 1.0);
    assert_eq!(f(checker.color_by(s(pattern(dark)), uv(0.0, 0.0), v(dark.0, dark.1, dark.2)).x), 0.0);
}

#[test]
fn a_light_scatters_nothing_and_gives_its_texture() {
    let light = DiffuseLight::new(Arc::new(SolidColor::new(v(4.0, 4.0, 4.0))));
    let ray = Ray::new(v(0.0, 0.0, 5.0), v(0.0, 0.0, -1.0));
    let record = hit_at(v(0.0, 0.0, 1.0), v(0.0, 0.0, 1.0), DiffuseLight::new(Arc::new(SolidColor::new(v(4.0, 4.0, 4.0)))));
    assert!(light.scatter(&ray, &record).is_none());
    assert_eq!(triple(light.color_emmited(uv(0.5, 0.5), v(1.0, 2.0, 3.0))), (4.0, 4.0, 4.0));
}

#[test]
fn a_light_hands_the_place_on_to_its_texture() {
    let light = DiffuseLight::new(Arc::new(Echo));
    assert_eq!(triple(light.color_emmited(uv(0.25, 0.75), v(1.0, 2.0, 3.0))), (0.25, 0.75, 3.0));
}

#[test]
fn lambertian_leaves_along_the_direction_given() {
    let matte = Lambertian::from_color(v(0.8, 0.8, 0.0));
    let record = hit_at(v(1.0, 2.0, 3.0), v(0.0, 1.0, 0.0), 0u8);
    let out = matte.scatter_toward(v(0.3, 1.2, -0.4), &record);
    assert_eq!(triple(out.ray.origin), (1.0, 2.0, 3.0));
    assert_eq!(triple(out.ray.direction), (0.3, 1.2, -0.4));
    assert_eq!(triple(out.attenuation), (0.8, 0.8, 0.0));
}

#[test]
fn lambertian_falls_back_on_the_normal_where_the_whole_sum_is_near_zero() {
    let matte = Lambertian::from_color(v(0.5, 0.5, 0.5));
    let record = hit_at(v(1.0, 2.0, 3.0), v(0.0, 1.0, 0.0), 0u8);
    let out = matte.scatter_toward(v(0.0, 0.0, 0.0), &record);
    assert_eq!(triple(out.ray.direction), (0.0, 1.0, 0.0));
    let out = matte.scatter_toward(v(1e-9, -1e-9, 5e-9), &record);
    assert_eq!(triple(out.ray.direction), (0.0, 1.0, 0.0));
    assert_eq!(triple(out.ray.origin), (1.0, 2.0, 3.0));
    assert_eq!(triple(out.attenuation), (0.5, 0.5, 0.5));
}

#[test]
fn lambertian_keeps_a_sum_with_one_small_component() {
    let matte = Lambertian::from_color(v(0.5, 0.5, 0.5));
    let record = hit_at(v(1.0, 2.0, 3.0), v(0.0, 1.0, 0.0), 0u8);
    let out = matte.scatter_toward(v(1e-9, 0.5, 0.5), &record);
    assert_eq!(triple(out.ray.direction), (1e-9, 0.5, 0.5));
    let upright = hit_at(v(0.0, 0.0, 0.0), v(0.0, 0.0, 1.0), 0u8);
    let out = matte.scatter_toward(v(0.0, 1.0, 1.0), &upright);
    assert_eq!(triple(out.ray.direction), (0.0, 1.0, 1.0));
    let out = matte.scatter_toward(v(0.0, 0.0, 2.0), &upright);
    assert_eq!(triple(out.ray.direction), (0.0, 0.0, 2.0));
}

#[test]
fn lambertian_never_leaves_along_a_direction_near_zero() {
    let matte = Lambertian::from_color(v(0.5, 0.5, 0.5));
    let record = hit_at(v(1.0, 2.0, 3.0), v(0.0, 0.0, 1.0), 0u8);
    let small = [0.0f32, -0.0, 1e-9, -9e-9, 1e-8, 0.3, -1.0];
    for x in small {
        for y in small {
            for z in small {
                assert!(!matte.scatter_toward(v(x, y, z), &record).ray.direction.is_near_zero());
            }
        }
    }
}

#[test]
fn surfaces_that_are_no_lights_give_no_light() {
    let places = [(uv(0.0, 0.0), v(0.0, 0.0, 0.0)), (uv(0.25, 0.75), v(1.0, -2.0, 3.0)), (uv(1.0, 1.0), v(1e9, 0.0, -1e9))];
    for (at, point) in places {
        let matte = Lambertian::from_color(v(1.0, 1.0, 1.0));
        let metal = Metal::new(&v(0.8, 0.6, 0.2), s(0.3));
        let glass = Dielectric::new(s(1.5));
        let smoke = Isotropic::new(Arc::new(SolidColor::new(v(0.9, 0.9, 0.9))));
        for light in [
            matte.color_emmited(at, point),
            metal.color_emmited(at, point),
            glass.color_emmited(at, point),
            smoke.color_emmited(at, point),
        ] {
            assert_eq!((light.x.to_bits(), light.y.to_bits(), light.z.to_bits()), (0, 0, 0));
        }
    }
}

#[test]
fn lambertian_colours_by_its_texture_at_the_hit() {
    let matte = Lambertian::new(Arc::new(Echo));
    let record = hit_at(v(1.0, 2.0, 3.0), v(0.0, 1.0, 0.0), 0u8);
    let out = matte.scatter_toward(v(0.3, 1.2, -0.4), &record);
    assert_eq!(triple(out.attenuation), (0.25, 0.5, 3.0));
}

#[test]
fn metal_new_holds_the_fuzz_at_one() {
    let color = v(0.7, 0.5, 0.5);
    assert_eq!(f(Metal::new(&color, s(0.3)).fuzz), 0.3);
    assert_eq!(f(Metal::new(&color, s(0.0)).fuzz), 0.0);
    assert_eq!(f(Metal::new(&color, s(1.0)).fuzz), 1.0);
    assert_eq!(f(Metal::new(&color, s(7.0)).fuzz), 1.0);
    assert_eq!(f(Metal::new(&color, s(f32::NAN)).fuzz), 1.0);
    assert_eq!(f(Metal::new(&color, s(-2.0)).fuzz), -2.0);
    assert_eq!(triple(Metal::new(&color, s(0.3)).albedo), (0.7, 0.5, 0.5));
}

#[test]
fn metal_scatters_away_from_the_surface_only() {
    let metal = Metal::new(&v(0.8, 0.6, 0.2), s(0.0));
    let record = hit_at(v(1.0, 2.0, 3.0), v(0.0, 1.0, 0.0), 0u8);
    let out = metal.scatter_toward(v(1.0, 1.0, 0.0), s(1.0), &record).unwrap();
    assert_eq!(triple(out.ray.origin), (1.0, 2.0, 3.0));
    assert_eq!(triple(out.ray.direction), (1.0, 1.0, 0.0));
    assert_eq!(triple(out.attenuation), (0.8, 0.6, 0.2));
    assert!(metal.scatter_toward(v(1.0, -1.0, 0.0), s(-1.0), &record).is_none());
    assert!(metal.scatter_toward(v(1.0, 0.0, 0.0), s(0.0), &record).is_none());
    assert!(metal.scatter_toward(v(1.0, 0.0, 0.0), s(f32::NAN), &record).is_none());
}

#[test]
fn dielectric_reflects_a_ray_that_is_too_flat() {
    let glass = Dielectric::new(s(1.5));
    let record = hit_at(v(1.0, 2.0, 3.0), v(0.0, 1.0, 0.0), 0u8);
    let (reflected, refracted) = (v(1.0, 1.0, 0.0), v(1.0, -1.0, 0.0));
    let out = glass.scatter_either(s(1.2), s(0.0), s(0.9), reflected, refracted, &record);
    assert_eq!(triple(out.ray.direction), (1.0, 1.0, 0.0));
    assert_eq!(triple(out.ray.origin), (1.0, 2.0, 3.0));
    assert_eq!(triple(out.attenuation), (1.0, 1.0, 1.0));
}

#[test]
fn dielectric_reflects_where_the_sample_falls_below_the_reflectance() {
    let glass = Dielectric::new(s(1.5));
    let record = hit_at(v(1.0, 2.0, 3.0), v(0.0, 1.0, 0.0), 0u8);
    let (reflected, refracted) = (v(1.0, 1.0, 0.0), v(1.0, -1.0, 0.0));
    let out = glass.scatter_either(s(0.5), s(0.4), s(0.3), reflected, refracted, &record);
    assert_eq!(triple(out.ray.direction), (1.0, 1.0, 0.0));
}

#[test]
fn dielectric_refracts_otherwise() {
    let glass = Dielectric::new(s(1.5));
    let record = hit_at(v(1.0, 2.0, 3.0), v(0.0, 1.0, 0.0), 0u8);
    let (reflected, refracted) = (v(1.0, 1.0, 0.0), v(1.0, -1.0, 0.0));
    let out = glass.scatter_either(s(0.5), s(0.04), s(0.3), reflected, refracted, &record);
    assert_eq!(triple(out.ray.direction), (1.0, -1.0, 0.0));
    assert_eq!(triple(out.attenuation), (1.0, 1.0, 1.0));
    let out = glass.scatter_either(s(1.0), s(0.3), s(0.3), reflected, refracted, &record);
    assert_eq!(triple(out.ray.direction), (1.0, -1.0, 0.0));
    assert_eq!(f(glass.index_of_refraction), 1.5);
}

#[test]
fn isotropic_leaves_along_the_direction_given() {
    let smoke = Isotropic::new(Arc::new(SolidColor::new(v(0.1, 0.2, 0.3))));
    let record = hit_at(v(1.0, 2.0, 3.0), v(1.0, 0.0, 0.0), 0u8);
    let out = smoke.scatter_toward(v(0.1, -0.2, 0.3), &record);
    assert_eq!(triple(out.ray.origin), (1.0, 2.0, 3.0));
    assert_eq!(triple(out.ray.direction), (0.1, -0.2, 0.3));
    assert_eq!(triple(out.attenuation), (0.1, 0.2, 0.3));
}
