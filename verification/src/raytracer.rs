//! The walk of a ray through a scene, and the plan by which an image is
//! rendered and written.

use vstd::prelude::*;
use std::sync::Arc;
use crate::hittable::{HitRecord, Hittable};
use crate::materials::{black, Material, ScatterRecord};
use crate::ray::Ray;
use crate::scalar::Scalar;
use crate::vec3::{Color, Vec3};

verus! {

/// The bit pattern of `0.001`. A hit nearer than this to the start of a ray
/// is passed over: it is the surface that the ray has just left.
pub const NEAREST_HIT_BITS: u32 = 0x3a83_126f;

/// One bounce of a ray: the light that the surface gave of itself, and what
/// it takes from the light that the rest of the path brings.
#[derive(Clone, Copy, Debug)]
pub struct Bounce {
    pub emitted: Color,
    pub attenuation: Color,
}

/// The path of a ray through a scene. Its light is that of the first bounce
/// plus that bounce's attenuation times the light of the rest, colour by
/// colour, and `last` where no bounce is left:
/// `e0 + a0 * (e1 + a1 * (.. + last))`.
#[derive(Debug)]
pub struct LightPath {
    pub bounces: Vec<Bounce>,
    pub last: Color,
}

/// What a walk met at one step: the hit, the light of the surface and the
/// ray that left it. It holds of any three.
pub open spec fn met<M: ?Sized>(hit: Option<HitRecord<M>>, emitted: Color, scattered: Option<ScatterRecord>) -> bool {
    true
}

/// Whether a walk of at most `bounces_left` bounces may lead to this path.
///
/// Without a bounce left the path is black. A ray that hits nothing ends in
/// the background colour. A ray that hits a surface which scatters nothing
/// ends in the light of the surface. Otherwise the surface adds a bounce and
/// the walk goes on along the scattered ray with one bounce less.
pub open spec fn may_follow<H>(
    hittable: &H,
    ray: Ray,
    background_color: Color,
    bounces_left: nat,
    bounces: Seq<Bounce>,
    last: Color,
) -> bool where H: Hittable + ?Sized, H::Material: Material
    decreases bounces_left,
{
    if bounces_left == 0 {
        bounces.len() == 0 && last == black()
    } else {
        exists|hit: Option<HitRecord<H::Material>>, emitted: Color, scattered: Option<ScatterRecord>|
            {
                &&& #[trigger] met(hit, emitted, scattered)
                &&& hittable.may_hit(ray, Scalar { bits: NEAREST_HIT_BITS }, Scalar::infinity(), hit)
                &&& match hit {
                    None => bounces.len() == 0 && last == background_color,
                    Some(record) => {
                        &&& record.material.may_emit(record.texture_coord, record.point, emitted)
                        &&& record.material.may_scatter(ray, record, scattered)
                        &&& match scattered {
                            None => bounces.len() == 0 && last == emitted,
                            Some(onward) => {
                                &&& bounces.len() > 0
                                &&& bounces[0] == (Bounce { emitted, attenuation: onward.attenuation })
                                &&& may_follow(
                                    hittable,
                                    onward.ray,
                                    background_color,
                                    (bounces_left - 1) as nat,
                                    bounces.drop_first(),
                                    last,
                                )
                            },
                        }
                    },
                }
            }
    }
}

/// The path of a ray through the scene, of at most `bounces_left` bounces.
pub fn ray_color<H>(ray: &Ray, hittable: &Arc<H>, background_color: Color, bounces_left: usize) -> (out:
    LightPath) where H: Hittable + ?Sized, H::Material: Material
    ensures
        may_follow(&**hittable, *ray, background_color, bounces_left as nat, out.bounces@, out.last),
        bounces_left == 0 ==> out.bounces@.len() == 0 && out.last == black(),
        out.bounces@.len() <= bounces_left,
        out.bounces@.len() == bounces_left ==> out.last == black(),
    decreases bounces_left,
{
    if bounces_left == 0 {
        return LightPath { bounces: Vec::new(), last: Vec3::all(Scalar::zero()) };
    }
    let hit = hittable.hit(ray, Scalar::from_bits(NEAREST_HIT_BITS), Scalar::infinity());
    match hit {
        None => {
            assert(met::<H::Material>(None, background_color, None));
            LightPath { bounces: Vec::new(), last: background_color }
        },
        Some(record) => {
            let emitted = record.material.color_emmited(record.texture_coord, record.point);
            let scattered = record.material.scatter(ray, &record);
            assert(met(Some(record), emitted, scattered));
            match scattered {
                None => LightPath { bounces: Vec::new(), last: emitted },
                Some(onward) => {
                    let mut rest = ray_color(&onward.ray, hittable, background_color, bounces_left - 1);
                    let ghost tail = rest.bounces@;
                    let bounce = Bounce { emitted, attenuation: onward.attenuation };
                    rest.bounces.insert(0, bounce);
                    assert(rest.bounces@.drop_first() == tail);
                    rest
                },
            }
        },
    }
}

/// The walk without a bounce left ends in black, whatever the ray, the scene
/// and the background.
pub proof fn lemma_no_bounce_is_black<H>(
    hittable: &H,
    ray: Ray,
    background_color: Color,
    bounces: Seq<Bounce>,
    last: Color,
) where H: Hittable + ?Sized, H::Material: Material
    requires
        may_follow(hittable, ray, background_color, 0, bounces, last),
    ensures
        bounces.len() == 0,
        last == black(),
{
}

/// A walk that has made all its bounces ends in black: what lies beyond the
/// last bounce brings no light, whatever the scene and the background.
pub proof fn lemma_spent_walk_ends_in_black<H>(
    hittable: &H,
    ray: Ray,
    background_color: Color,
    bounces_left: nat,
    bounces: Seq<Bounce>,
    last: Color,
) where H: Hittable + ?Sized, H::Material: Material
    requires
        may_follow(hittable, ray, background_color, bounces_left, bounces, last),
    ensures
        bounces.len() <= bounces_left,
        bounces.len() == bounces_left ==> last == black(),
    decreases bounces_left,
{
    if bounces_left > 0 {
        let (hit, emitted, scattered) = choose|
            hit: Option<HitRecord<H::Material>>,
            emitted: Color,
            scattered: Option<ScatterRecord>,
        |
            {
                &&& #[trigger] met(hit, emitted, scattered)
                &&& hittable.may_hit(ray, Scalar { bits: NEAREST_HIT_BITS }, Scalar::infinity(), hit)
                &&& match hit {
                    None => bounces.len() == 0 && last == background_color,
                    Some(record) => {
                        &&& record.material.may_emit(record.texture_coord, record.point, emitted)
                        &&& record.material.may_scatter(ray, record, scattered)
                        &&& match scattered {
                            None => bounces.len() == 0 && last == emitted,
                            Some(onward) => {
                                &&& bounces.len() > 0
                                &&& bounces[0] == (Bounce { emitted, attenuation: onward.attenuation })
                                &&& may_follow(
                                    hittable,
                                    onward.ray,
                                    background_color,
                                    (bounces_left - 1) as nat,
                                    bounces.drop_first(),
                                    last,
                                )
                            },
                        }
                    },
                }
            };
        if hit is Some && scattered is Some {
            lemma_spent_walk_ends_in_black(
                hittable,
                scattered->Some_0.ray,
                background_color,
                (bounces_left - 1) as nat,
                bounces.drop_first(),
                last,
            );
        }
    }
}

/// The rows of the image that one worker renders.
#[derive(Clone, Copy, Debug)]
pub struct RowRange {
    /// The first row, counted from the top of the image.
    pub start: usize,
    /// The number of rows.
    pub rows: usize,
}

/// `num_cpus::get` of the crate num_cpus: the number of logical cores that
/// the machine offers this process. The crate's documentation has it at
/// least 1; the number itself is the machine's.
#[verifier::external_body]
fn available_workers() -> (out: usize)
    ensures
        out >= 1,
{
    num_cpus::get()
}

/// The rows of worker `worker` out of `thread_count`: every worker gets the
/// same whole number of rows, and the last one the remainder too.
pub open spec fn share_of(image_height: int, thread_count: int, worker: int) -> (int, int) {
    let rows_per_thread = image_height / thread_count;
    (
        worker * rows_per_thread,
        if worker == thread_count - 1 {
            rows_per_thread + image_height % thread_count
        } else {
            rows_per_thread
        },
    )
}

/// Whether the ranges lie one after the other and cover the rows
/// `0..image_height`, none left out and none taken twice.
pub open spec fn tiles(ranges: Seq<RowRange>, image_height: int) -> bool {
    &&& ranges.len() >= 1
    &&& ranges[0].start == 0
    &&& forall|i: int| 0 <= i < ranges.len() - 1 ==> (#[trigger] ranges[i]).start + ranges[i].rows == ranges[i + 1].start
    &&& ranges.last().start + ranges.last().rows == image_height
}

/// The shares of `thread_count` workers fit in the image and lie one after
/// the other.
pub proof fn lemma_shares_tile(image_height: int, thread_count: int, worker: int)
    requires
        0 <= image_height,
        1 <= thread_count,
        0 <= worker < thread_count,
    ensures
        0 <= share_of(image_height, thread_count, worker).0,
        0 <= share_of(image_height, thread_count, worker).1,
        share_of(image_height, thread_count, worker).0 + share_of(image_height, thread_count, worker).1
            <= image_height,
        worker < thread_count - 1 ==> share_of(image_height, thread_count, worker).0 + share_of(
            image_height,
            thread_count,
            worker,
        ).1 == share_of(image_height, thread_count, worker + 1).0,
        worker == thread_count - 1 ==> share_of(image_height, thread_count, worker).0 + share_of(
            image_height,
            thread_count,
            worker,
        ).1 == image_height,
        share_of(image_height, thread_count, 0).0 == 0,
{
    let rows_per_thread = image_height / thread_count;
    let rest = image_height % thread_count;
    assert(image_height == thread_count * rows_per_thread + rest && 0 <= rest < thread_count) by {
        vstd::arithmetic::div_mod::lemma_fundamental_div_mod(image_height, thread_count);
    }
    assert(0 <= rows_per_thread) by {
        vstd::arithmetic::div_mod::lemma_div_pos_is_pos(image_height, thread_count);
    }
    assert(0 <= worker * rows_per_thread) by (nonlinear_arith)
        requires
            0 <= worker,
            0 <= rows_per_thread,
    ;
    assert((worker + 1) * rows_per_thread == worker * rows_per_thread + rows_per_thread) by (nonlinear_arith);
    assert((worker + 1) * rows_per_thread <= thread_count * rows_per_thread) by (nonlinear_arith)
        requires
            worker + 1 <= thread_count,
            0 <= rows_per_thread,
    ;
    assert(0 * rows_per_thread == 0);
}

/// The rows of each of `thread_count` workers, of which there must be one at
/// least.
pub fn partition_rows(image_height: usize, thread_count: usize) -> (out: Vec<RowRange>)
    requires
        thread_count >= 1,
    ensures
        out.len() == thread_count,
        forall|i: int|
            0 <= i < out.len() ==> ((#[trigger] out[i]).start as int, out[i].rows as int) == share_of(
                image_height as int,
                thread_count as int,
                i,
            ),
        tiles(out@, image_height as int),
{
    proof {
        lemma_shares_tile(image_height as int, thread_count as int, thread_count - 1);
    }
    let rows_per_thread = image_height / thread_count;
    let last_thread_rows = rows_per_thread + image_height % thread_count;
    let mut out: Vec<RowRange> = Vec::new();
    let mut i: usize = 0;
    while i < thread_count - 1
        invariant
            thread_count >= 1,
            i <= thread_count - 1,
            out.len() == i,
            rows_per_thread == image_height / thread_count,
            forall|k: int|
                0 <= k < i ==> ((#[trigger] out[k]).start as int, out[k].rows as int) == share_of(
                    image_height as int,
                    thread_count as int,
                    k,
                ),
        decreases thread_count - 1 - i,
    {
        proof {
            lemma_shares_tile(image_height as int, thread_count as int, i as int);
        }
        out.push(RowRange { start: i * rows_per_thread, rows: rows_per_thread });
        i += 1;
    }
    out.push(RowRange { start: (thread_count - 1) * rows_per_thread, rows: last_thread_rows });
    proof {
        assert forall|k: int| 0 <= k < out.len() - 1 implies (#[trigger] out[k]).start + out[k].rows == out[k
            + 1].start by {
            lemma_shares_tile(image_height as int, thread_count as int, k);
        }
        lemma_shares_tile(image_height as int, thread_count as int, 0);
    }
    out
}

/// The rows of each worker, with as many workers as the machine has cores.
pub fn plan_rows(image_height: usize) -> (out: Vec<RowRange>)
    ensures
        out.len() >= 1,
        forall|i: int|
            0 <= i < out.len() ==> ((#[trigger] out[i]).start as int, out[i].rows as int) == share_of(
                image_height as int,
                out.len() as int,
                i,
            ),
        tiles(out@, image_height as int),
{
    partition_rows(image_height, available_workers())
}

/// The pixels of some rows of an image, row by row from the top, three
/// bytes for each pixel: red, green, blue.
#[derive(Debug)]
pub struct PixelBuffer {
    pub image_width: usize,
    pub pixels: Vec<u8>,
}

impl PixelBuffer {
    /// The place of a pixel's red byte in the buffer.
    pub open spec fn location(self, row: int, column: int) -> int {
        (row * self.image_width + column) * 3
    }

    /// A buffer of black pixels for `slice_height` rows. Its size must fit
    /// the machine.
    pub fn new(image_width: usize, slice_height: usize) -> (out: PixelBuffer)
        requires
            slice_height * image_width * 3 <= usize::MAX,
        ensures
            out.image_width == image_width,
            out.pixels@ == Seq::new((slice_height * image_width * 3) as nat, |i: int| 0u8),
    {
        assert(slice_height * image_width <= slice_height * image_width * 3) by (nonlinear_arith)
            requires
                0 <= slice_height * image_width,
        ;
        let pixels = vec![0u8; slice_height * image_width * 3];
        assert(pixels@ =~= Seq::new((slice_height * image_width * 3) as nat, |i: int| 0u8));
        PixelBuffer { image_width, pixels }
    }

    /// Whether the pixel lies in the buffer.
    pub open spec fn holds(self, row: int, column: int) -> bool {
        0 <= row && 0 <= column < self.image_width && self.location(row, column) + 2 < self.pixels@.len()
    }

    /// Sets one pixel, which must lie in the buffer.
    pub fn set(&mut self, row: usize, column: usize, red: u8, green: u8, blue: u8)
        requires
            old(self).holds(row as int, column as int),
        ensures
            final(self).image_width == old(self).image_width,
            final(self).pixels@ == old(self).pixels@.update(
                old(self).location(row as int, column as int),
                red,
            ).update(old(self).location(row as int, column as int) + 1, green).update(
                old(self).location(row as int, column as int) + 2,
                blue,
            ),
    {
        let size = self.pixels.len();
        assert(0 <= row * self.image_width) by (nonlinear_arith)
            requires
                0 <= row,
                0 <= self.image_width,
        ;
        let location = (row * self.image_width + column) * 3;
        self.pixels[location] = red;
        self.pixels[location + 1] = green;
        self.pixels[location + 2] = blue;
    }
}

/// The character of a digit.
pub open spec fn digit(value: nat) -> u8 {
    (48 + value) as u8
}

/// A number in decimal.
pub open spec fn decimal(value: nat) -> Seq<u8>
    decreases value,
{
    if value < 10 {
        seq![digit(value)]
    } else {
        decimal(value / 10).push(digit(value % 10))
    }
}

/// The line of one pixel: its three channels in decimal, a space between
/// them and a line feed behind.
pub open spec fn pixel_line(red: u8, green: u8, blue: u8) -> Seq<u8> {
    decimal(red as nat) + seq![32u8] + decimal(green as nat) + seq![32u8] + decimal(blue as nat) + seq![10u8]
}

/// The lines of the pixels that `bytes` holds whole, three bytes each.
pub open spec fn pixel_lines(bytes: Seq<u8>) -> Seq<u8>
    decreases bytes.len(),
{
    if bytes.len() < 3 {
        Seq::empty()
    } else {
        let front = (bytes.len() - 3) as int;
        pixel_lines(bytes.take(front)) + pixel_line(bytes[front], bytes[front + 1], bytes[front + 2])
    }
}

/// The head of a plain PPM file: its magic number, the width and the height, and 255 for
/// the largest value of a channel.
pub open spec fn header(image_width: nat, image_height: nat) -> Seq<u8> {
    seq![80u8, 51u8, 10u8] + decimal(image_width) + seq![32u8] + decimal(image_height) + seq![
        10u8,
        50u8,
        53u8,
        53u8,
        10u8,
    ]
}

/// The lines of the pixels of the slices, slice after slice.
pub open spec fn slice_lines(slices: Seq<Vec<u8>>) -> Seq<u8>
    decreases slices.len(),
{
    if slices.len() == 0 {
        Seq::empty()
    } else {
        slice_lines(slices.drop_last()) + pixel_lines(slices.last()@)
    }
}

/// Appends a number in decimal.
pub fn push_decimal(out: &mut Vec<u8>, value: usize)
    ensures
        final(out)@ == old(out)@ + decimal(value as nat),
    decreases value,
{
    if value >= 10 {
        push_decimal(out, value / 10);
    }
    let last = (value % 10) as u8;
    out.push(48u8 + last);
    proof {
        if value < 10 {
            assert(final(out)@ =~= old(out)@ + seq![digit(value as nat)]);
        } else {
            assert(final(out)@ =~= old(out)@ + decimal((value / 10) as nat).push(digit((value % 10) as nat)));
        }
    }
}

/// The head of the file for an image of this size.
pub fn ppm_header(image_width: usize, image_height: usize) -> (out: Vec<u8>)
    ensures
        out@ == header(image_width as nat, image_height as nat),
{
    let mut out: Vec<u8> = Vec::new();
    out.push(80u8);
    out.push(51u8);
    out.push(10u8);
    push_decimal(&mut out, image_width);
    out.push(32u8);
    push_decimal(&mut out, image_height);
    out.push(10u8);
    out.push(50u8);
    out.push(53u8);
    out.push(53u8);
    out.push(10u8);
    assert(out@ =~= header(image_width as nat, image_height as nat));
    out
}

/// Appends the lines of the pixels, of which `pixels` must hold a whole
/// number.
pub fn output_pixels(out: &mut Vec<u8>, pixels: &[u8])
    requires
        pixels@.len() % 3 == 0,
    ensures
        final(out)@ == old(out)@ + pixel_lines(pixels@),
{
    let mut i: usize = 0;
    assert(pixels@.take(0) =~= Seq::<u8>::empty());
    while i < pixels.len()
        invariant
            i <= pixels@.len(),
            i % 3 == 0,
            pixels@.len() % 3 == 0,
            out@ == old(out)@ + pixel_lines(pixels@.take(i as int)),
        decreases pixels@.len() - i,
    {
        let (r, g, b) = (pixels[i], pixels[i + 1], pixels[i + 2]);
        let ghost before = out@;
        push_decimal(out, r as usize);
        out.push(32u8);
        push_decimal(out, g as usize);
        out.push(32u8);
        push_decimal(out, b as usize);
        out.push(10u8);
        proof {
            let longer = pixels@.take(i + 3);
            assert(longer.take(i as int) == pixels@.take(i as int));
            assert(out@ =~= before + pixel_line(r, g, b));
        }
        i += 3;
    }
    assert(pixels@.take(pixels@.len() as int) == pixels@);
}

/// The whole file: the head, then the pixels of the slices, which are the
/// workers' buffers from the top of the image down. Every slice must hold a
/// whole number of pixels.
pub fn write_image(image_width: usize, image_height: usize, slices: &Vec<Vec<u8>>) -> (out: Vec<u8>)
    requires
        forall|k: int| 0 <= k < slices.len() ==> (#[trigger] slices[k])@.len() % 3 == 0,
    ensures
        out@ == header(image_width as nat, image_height as nat) + slice_lines(slices@),
{
    let mut out = ppm_header(image_width, image_height);
    let mut k: usize = 0;
    assert(slices@.take(0) =~= Seq::<Vec<u8>>::empty());
    while k < slices.len()
        invariant
            k <= slices.len(),
            forall|j: int| 0 <= j < slices.len() ==> (#[trigger] slices[j])@.len() % 3 == 0,
            out@ == header(image_width as nat, image_height as nat) + slice_lines(slices@.take(k as int)),
        decreases slices.len() - k,
    {
        let ghost before = out@;
        output_pixels(&mut out, slices[k].as_slice());
        proof {
            let longer = slices@.take(k + 1);
            assert(longer.drop_last() == slices@.take(k as int));
            assert(longer.last() == slices[k as int]);
            assert(out@ =~= header(image_width as nat, image_height as nat) + slice_lines(longer));
        }
        k += 1;
    }
    assert(slices@.take(slices.len() as int) == slices@);
    out
}

} // verus!
