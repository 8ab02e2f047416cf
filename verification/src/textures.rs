//! Textures: a colour for every place on a surface.

use vstd::prelude::*;
use std::sync::Arc;
use crate::perlin::{Perlin, VALUE_COUNT};
use crate::permutation::permutation;
use crate::scalar::Scalar;
use crate::vec2::Vec2;
use crate::vec3::{Color, Pt3, Vec3};

verus! {

/// A texture. An implementation says with `may_color` which colours it can
/// give; one that says nothing promises nothing.
pub trait Texture: Send + Sync {
    /// Whether `color` may answer `out`.
    open spec fn may_color(&self, uv: Vec2, hit_point: Pt3, out: Color) -> bool {
        true
    }

    /// The colour at a surface coordinate and a point in space.
    fn color(&self, uv: Vec2, hit_point: Pt3) -> (out: Color)
        ensures
            self.may_color(uv, hit_point, out),
    ;
}

/// One colour everywhere.
pub struct SolidColor {
    pub color: Color,
}

impl SolidColor {
    pub fn new(color: Color) -> (out: SolidColor)
        ensures
            out.color == color,
    {
        SolidColor { color }
    }
}

impl Texture for SolidColor {
    open spec fn may_color(&self, uv: Vec2, hit_point: Pt3, out: Color) -> bool {
        out == self.color
    }

    fn color(&self, uv: Vec2, hit_point: Pt3) -> (out: Color) {
        self.color
    }
}

/// Two textures that alternate in space like the fields of a chequerboard.
pub struct CheckerTexture<O: Texture + ?Sized, E: Texture + ?Sized> {
    pub odd: Arc<O>,
    pub even: Arc<E>,
}

impl<O: Texture + ?Sized, E: Texture + ?Sized> CheckerTexture<O, E> {
    pub fn new(odd: Arc<O>, even: Arc<E>) -> (out: CheckerTexture<O, E>)
        ensures
            out.odd == odd,
            out.even == even,
    {
        CheckerTexture { odd, even }
    }

    /// Whether `color_by` may answer `out`.
    pub open spec fn may_color_by(&self, pattern: Scalar, uv: Vec2, hit_point: Pt3, out: Color) -> bool {
        if pattern.gt(Scalar::zero()) {
            self.odd.may_color(uv, hit_point, out)
        } else {
            self.even.may_color(uv, hit_point, out)
        }
    }

    /// The colour at a point whose place in the pattern is given: `pattern`
    /// is the product of the sines of ten times each coordinate of the
    /// point. Above zero the odd texture colours the point, otherwise the
    /// even one.
    pub fn color_by(&self, pattern: Scalar, uv: Vec2, hit_point: Pt3) -> (out: Color)
        ensures
            self.may_color_by(pattern, uv, hit_point, out),
    {
        if pattern.gt(Scalar::zero()) {
            self.odd.color(uv, hit_point)
        } else {
            self.even.color(uv, hit_point)
        }
    }
}

/// Grey noise.
pub struct NoiseTexture {
    pub perlin: Perlin,
}

impl NoiseTexture {
    /// A texture of noise over the given numbers, of which there must be
    /// `VALUE_COUNT`.
    pub fn new(random: Vec<Scalar>) -> (out: NoiseTexture)
        requires
            random.len() == VALUE_COUNT,
        ensures
            out.perlin.values() == random@,
            permutation(out.perlin.tables().0, VALUE_COUNT as int),
            permutation(out.perlin.tables().1, VALUE_COUNT as int),
            permutation(out.perlin.tables().2, VALUE_COUNT as int),
    {
        NoiseTexture { perlin: Perlin::new(random) }
    }
}

impl Texture for NoiseTexture {
    /// The grey of the noise at the point.
    open spec fn may_color(&self, uv: Vec2, hit_point: Pt3, out: Color) -> bool {
        out == (Vec3 {
            x: self.perlin.noise(hit_point),
            y: self.perlin.noise(hit_point),
            z: self.perlin.noise(hit_point),
        })
    }

    fn color(&self, uv: Vec2, hit_point: Pt3) -> (out: Color) {
        Vec3::all(self.perlin.get(hit_point))
    }
}

/// The bit pattern of `0.999`, the largest coordinate at which an image is
/// read.
pub const LAST_TEXEL_BITS: u32 = 0x3f7f_be77;

/// A picture: rows of pixels from the top, three bytes each, red, green
/// and blue.
pub struct ImageTexture {
    width: u32,
    height: u32,
    pixels: Vec<u8>,
}

impl ImageTexture {
    #[verifier::type_invariant]
    spec fn wf(&self) -> bool {
        self.pixels@.len() == self.width * self.height * 3
    }

    /// The number of columns.
    pub closed spec fn spec_width(&self) -> u32 {
        self.width
    }

    /// The number of rows.
    pub closed spec fn spec_height(&self) -> u32 {
        self.height
    }

    /// The bytes of the picture.
    pub closed spec fn bytes(&self) -> Seq<u8> {
        self.pixels@
    }

    /// A picture of this size, or nothing where the bytes are not three for
    /// each of its pixels.
    pub fn from_pixels(width: u32, height: u32, pixels: Vec<u8>) -> (out: Option<ImageTexture>)
        ensures
            out is Some <==> pixels@.len() == width * height * 3,
            out matches Some(image) ==> image.spec_width() == width && image.spec_height() == height
                && image.bytes() == pixels@,
    {
        assert(0 <= width * height <= 0xffff_ffff * 0xffff_ffff) by (nonlinear_arith)
            requires
                0 <= width <= 0xffff_ffff,
                0 <= height <= 0xffff_ffff,
        ;
        let size = (width as u128) * (height as u128) * 3;
        if pixels.len() as u128 == size {
            Some(ImageTexture { width, height, pixels })
        } else {
            None
        }
    }

    #[verifier::when_used_as_spec(spec_width)]
    pub fn width(&self) -> (out: u32)
        ensures
            out == self.spec_width(),
    {
        self.width
    }

    #[verifier::when_used_as_spec(spec_height)]
    pub fn height(&self) -> (out: u32)
        ensures
            out == self.spec_height(),
    {
        self.height
    }

    /// The pixel in column `x` of row `y`, row 0 being the top, or nothing
    /// where the picture has no such pixel.
    pub fn texel(&self, x: u32, y: u32) -> (out: Option<(u8, u8, u8)>)
        ensures
            out is Some <==> x < self.width() && y < self.height(),
            out matches Some(pixel) ==> {
                let at = (y * self.width() + x) * 3;
                &&& at + 2 < self.bytes().len()
                &&& pixel == (self.bytes()[at], self.bytes()[at + 1], self.bytes()[at + 2])
            },
    {
        proof {
            use_type_invariant(self);
        }
        if x >= self.width || y >= self.height {
            return None;
        }
        let size = self.pixels.len();
        assert((y * self.width + x) * 3 + 2 < self.width * self.height * 3) by (nonlinear_arith)
            requires
                0 <= x < self.width,
                0 <= y < self.height,
        ;
        assert(0 <= y * self.width) by (nonlinear_arith)
            requires
                0 <= y,
                0 <= self.width,
        ;
        let at = ((y as usize) * (self.width as usize) + (x as usize)) * 3;
        Some((self.pixels[at], self.pixels[at + 1], self.pixels[at + 2]))
    }

    /// The surface coordinate held between 0 and 0.999, so that it falls on
    /// a pixel.
    pub fn clamp_uv(uv: Vec2) -> (out: Vec2)
        ensures
            out.x == uv.x.clamp(Scalar::zero(), Scalar { bits: LAST_TEXEL_BITS }),
            out.y == uv.y.clamp(Scalar::zero(), Scalar { bits: LAST_TEXEL_BITS }),
    {
        let last = Scalar::from_bits(LAST_TEXEL_BITS);
        Vec2::new(uv.x.clamp(Scalar::zero(), last), uv.y.clamp(Scalar::zero(), last))
    }
}

} // verus!
