//! Axis-aligned bounding boxes.

use vstd::prelude::*;
use crate::scalar::Scalar;
use crate::vec3::Vec3;

verus! {

/// A box with its edges along the axes, between two corners.
#[derive(Clone, Copy, Debug)]
pub struct Aabb {
    pub min: Vec3,
    pub max: Vec3,
}

/// Where a ray meets the two planes that bound a box on one axis.
#[derive(Clone, Copy, Debug)]
pub struct Crossing {
    /// One over the ray's direction on this axis. Only its sign is read.
    pub inverse: Scalar,
    /// The ray's parameter at the plane through the box's minimum.
    pub at_min: Scalar,
    /// The ray's parameter at the plane through the box's maximum.
    pub at_max: Scalar,
}

impl Crossing {
    /// The parameter at which the ray comes between the two planes: the
    /// plane through the maximum when the ray runs against the axis.
    pub open spec fn entry(self) -> Scalar {
        if self.inverse.lt(Scalar::zero()) {
            self.at_max
        } else {
            self.at_min
        }
    }

    /// The parameter at which the ray leaves the space between the planes.
    pub open spec fn exit(self) -> Scalar {
        if self.inverse.lt(Scalar::zero()) {
            self.at_min
        } else {
            self.at_max
        }
    }

    /// Whether neither parameter is a NaN.
    pub open spec fn numeric(self) -> bool {
        !self.at_min.nan() && !self.at_max.nan()
    }

    /// The running interval `(entry, exit)` cut down to this axis. A
    /// parameter that does not compare, being a NaN, leaves its end as it is.
    pub open spec fn narrow(self, interval: (Scalar, Scalar)) -> (Scalar, Scalar) {
        (
            if self.entry().gt(interval.0) {
                self.entry()
            } else {
                interval.0
            },
            if self.exit().lt(interval.1) {
                self.exit()
            } else {
                interval.1
            },
        )
    }

    pub fn new(inverse: Scalar, at_min: Scalar, at_max: Scalar) -> (out: Crossing)
        ensures
            out == (Crossing { inverse, at_min, at_max }),
    {
        Crossing { inverse, at_min, at_max }
    }
}

/// Whether the interval still holds a parameter: its exit lies after its
/// entry.
pub open spec fn open_interval(interval: (Scalar, Scalar)) -> bool {
    !interval.1.le(interval.0)
}

impl Aabb {
    /// Whether the minimum is at or below the maximum on every axis. No
    /// corner of such a box holds a NaN.
    pub open spec fn valid(self) -> bool {
        self.min.x.le(self.max.x) && self.min.y.le(self.max.y) && self.min.z.le(self.max.z)
    }

    /// Whether no corner holds a NaN.
    pub open spec fn numeric(self) -> bool {
        self.min.numeric() && self.max.numeric()
    }

    /// Whether `inner` lies in this box: on every axis this minimum is at or
    /// below that of `inner`, and this maximum at or above.
    pub open spec fn encloses(self, inner: Aabb) -> bool {
        &&& self.min.x.le(inner.min.x)
        &&& self.min.y.le(inner.min.y)
        &&& self.min.z.le(inner.min.z)
        &&& self.max.x.ge(inner.max.x)
        &&& self.max.y.ge(inner.max.y)
        &&& self.max.z.ge(inner.max.z)
    }

    /// Whether the point lies in this box, its faces included.
    pub open spec fn holds(self, point: Vec3) -> bool {
        &&& self.min.x.le(point.x) && point.x.le(self.max.x)
        &&& self.min.y.le(point.y) && point.y.le(self.max.y)
        &&& self.min.z.le(point.z) && point.z.le(self.max.z)
    }

    /// The smallest box around two boxes: on each axis the smaller minimum
    /// and the larger maximum.
    pub open spec fn spec_combined(self, other: Aabb) -> Aabb {
        Aabb {
            min: Vec3 {
                x: self.min.x.min(other.min.x),
                y: self.min.y.min(other.min.y),
                z: self.min.z.min(other.min.z),
            },
            max: Vec3 {
                x: self.max.x.max(other.max.x),
                y: self.max.y.max(other.max.y),
                z: self.max.z.max(other.max.z),
            },
        }
    }

    /// The box grown to hold a point.
    pub open spec fn grown(self, point: Vec3) -> Aabb {
        Aabb {
            min: Vec3 {
                x: self.min.x.min(point.x),
                y: self.min.y.min(point.y),
                z: self.min.z.min(point.z),
            },
            max: Vec3 {
                x: self.max.x.max(point.x),
                y: self.max.y.max(point.y),
                z: self.max.z.max(point.z),
            },
        }
    }

    /// The box that holds nothing: it runs from positive to negative
    /// infinity, so that any point grows it to that point.
    pub open spec fn nothing() -> Aabb {
        Aabb { min: Vec3 { x: Scalar::infinity(), y: Scalar::infinity(), z: Scalar::infinity() }, max: Vec3 {
            x: Scalar::neg_infinity(),
            y: Scalar::neg_infinity(),
            z: Scalar::neg_infinity(),
        } }
    }

    /// The smallest box around the points, taken in turn.
    pub open spec fn spec_enclosing(points: Seq<Vec3>) -> Aabb
        decreases points.len(),
    {
        if points.len() == 0 {
            Aabb::nothing()
        } else {
            Aabb::spec_enclosing(points.drop_last()).grown(points.last())
        }
    }

    /// The corner of the box that takes, on each axis, the maximum where the
    /// flag is set and the minimum where it is not.
    pub open spec fn corner(self, x: bool, y: bool, z: bool) -> Vec3 {
        Vec3 {
            x: if x { self.max.x } else { self.min.x },
            y: if y { self.max.y } else { self.min.y },
            z: if z { self.max.z } else { self.min.z },
        }
    }

    /// The eight corners. Corner `4i + 2j + k` takes the maximum on x where
    /// `i` is 1, on y where `j` is 1 and on z where `k` is 1.
    pub open spec fn spec_corners(self) -> Seq<Vec3> {
        seq![
            self.corner(false, false, false),
            self.corner(false, false, true),
            self.corner(false, true, false),
            self.corner(false, true, true),
            self.corner(true, false, false),
            self.corner(true, false, true),
            self.corner(true, true, false),
            self.corner(true, true, true),
        ]
    }

    /// What the slab test answers: the interval from `t_min` to `t_max` is
    /// cut down axis by axis, and the ray misses as soon as the interval
    /// holds nothing.
    pub open spec fn spec_hit(x: Crossing, y: Crossing, z: Crossing, t_min: Scalar, t_max: Scalar) -> bool {
        let after_x = x.narrow((t_min, t_max));
        let after_y = y.narrow(after_x);
        let after_z = z.narrow(after_y);
        open_interval(after_x) && open_interval(after_y) && open_interval(after_z)
    }

    pub fn new(min: Vec3, max: Vec3) -> (out: Aabb)
        ensures
            out == (Aabb { min, max }),
    {
        Aabb { min, max }
    }

    /// The slab test on a ray whose crossings with the box's planes are
    /// given. Where no number is a NaN, the ray hits exactly when its latest
    /// entry lies before its earliest exit, `t_min` counting as an entry and
    /// `t_max` as an exit.
    pub fn hit(x: Crossing, y: Crossing, z: Crossing, t_min: Scalar, t_max: Scalar) -> (out: bool)
        ensures
            out == Aabb::spec_hit(x, y, z, t_min, t_max),
            x.numeric() && y.numeric() && z.numeric() && !t_min.nan() && !t_max.nan() ==> (out
                <==> t_min.max(x.entry()).max(y.entry()).max(z.entry()).lt(
                t_max.min(x.exit()).min(y.exit()).min(z.exit()),
            )),
    {
        let mut t_entry = t_min;
        let mut t_exit = t_max;
        let crossings = [x, y, z];
        for axis in 0usize..3
            invariant
                crossings@ == seq![x, y, z],
                axis == 0 ==> (t_entry, t_exit) == (t_min, t_max),
                axis == 1 ==> (t_entry, t_exit) == x.narrow((t_min, t_max)),
                axis == 2 ==> (t_entry, t_exit) == y.narrow(x.narrow((t_min, t_max))),
                axis == 3 ==> (t_entry, t_exit) == z.narrow(y.narrow(x.narrow((t_min, t_max)))),
                axis >= 1 ==> open_interval(x.narrow((t_min, t_max))),
                axis >= 2 ==> open_interval(y.narrow(x.narrow((t_min, t_max)))),
                axis >= 3 ==> open_interval(z.narrow(y.narrow(x.narrow((t_min, t_max))))),
        {
            let crossing = crossings[axis];
            let (mut t_entry_axis, mut t_exit_axis) = (crossing.at_min, crossing.at_max);
            if crossing.inverse.lt(Scalar::zero()) {
                t_entry_axis = crossing.at_max;
                t_exit_axis = crossing.at_min;
            }
            t_entry = if t_entry_axis.gt(t_entry) { t_entry_axis } else { t_entry };
            t_exit = if t_exit_axis.lt(t_exit) { t_exit_axis } else { t_exit };
            if t_exit.le(t_entry) {
                return false;
            }
        }
        true
    }

    /// The smallest box around this box and another. Where neither holds a
    /// NaN it encloses both.
    pub fn combined(&self, other: &Aabb) -> (out: Aabb)
        ensures
            out == self.spec_combined(*other),
            self.numeric() && other.numeric() ==> out.encloses(*self) && out.encloses(*other),
            self.valid() && other.valid() ==> out.valid(),
    {
        Aabb {
            min: Vec3::new(
                self.min.x.min(other.min.x),
                self.min.y.min(other.min.y),
                self.min.z.min(other.min.z),
            ),
            max: Vec3::new(
                self.max.x.max(other.max.x),
                self.max.y.max(other.max.y),
                self.max.z.max(other.max.z),
            ),
        }
    }

    /// The eight corners of the box.
    pub fn corners(&self) -> (out: Vec<Vec3>)
        ensures
            out@ == self.spec_corners(),
    {
        let ends = [self.min, self.max];
        let mut out: Vec<Vec3> = Vec::new();
        for i in 0usize..2
            invariant
                ends@ == seq![self.min, self.max],
                out@ == self.spec_corners().take(4 * i),
        {
            for j in 0usize..2
                invariant
                    ends@ == seq![self.min, self.max],
                    i < 2,
                    out@ == self.spec_corners().take(4 * i + 2 * j),
            {
                for k in 0usize..2
                    invariant
                        ends@ == seq![self.min, self.max],
                        i < 2,
                        j < 2,
                        out@ == self.spec_corners().take(4 * i + 2 * j + k),
                {
                    out.push(Vec3::new(ends[i].x, ends[j].y, ends[k].z));
                    assert(out@ == self.spec_corners().take(4 * i + 2 * j + k + 1));
                }
            }
        }
        assert(self.spec_corners().take(8) == self.spec_corners());
        out
    }

    /// The smallest box around the points. Without points it is the box that
    /// holds nothing.
    pub fn enclosing(points: &[Vec3]) -> (out: Aabb)
        ensures
            out == Aabb::spec_enclosing(points@),
    {
        let mut out = Aabb {
            min: Vec3::all(Scalar::infinity()),
            max: Vec3::all(Scalar::neg_infinity()),
        };
        for i in 0..points.len()
            invariant
                out == Aabb::spec_enclosing(points@.take(i as int)),
        {
            let point = points[i];
            assert(points@.take(i + 1).drop_last() == points@.take(i as int));
            out = Aabb {
                min: Vec3::new(out.min.x.min(point.x), out.min.y.min(point.y), out.min.z.min(point.z)),
                max: Vec3::new(out.max.x.max(point.x), out.max.y.max(point.y), out.max.z.max(point.z)),
            };
        }
        assert(points@.take(points.len() as int) == points@);
        out
    }

    /// A ray hits where some parameter of the interval lies after its entry
    /// and before its exit on every axis: the ray is then inside the box.
    pub proof fn lemma_interior_hits(x: Crossing, y: Crossing, z: Crossing, t_min: Scalar, t_max: Scalar, t: Scalar)
        requires
            t_min.lt(t) && t.lt(t_max),
            x.entry().lt(t) && t.lt(x.exit()),
            y.entry().lt(t) && t.lt(y.exit()),
            z.entry().lt(t) && t.lt(z.exit()),
        ensures
            Aabb::spec_hit(x, y, z, t_min, t_max),
    {
    }

    /// A ray misses where, on some axis, it has left the space between the
    /// planes before the interval begins, or enters it only after the
    /// interval has ended.
    pub proof fn lemma_beyond_a_face_misses(x: Crossing, y: Crossing, z: Crossing, t_min: Scalar, t_max: Scalar)
        requires
            x.numeric() && y.numeric() && z.numeric(),
            !t_min.nan() && !t_max.nan(),
            x.exit().le(t_min) || y.exit().le(t_min) || z.exit().le(t_min) || x.entry().ge(t_max)
                || y.entry().ge(t_max) || z.entry().ge(t_max),
        ensures
            !Aabb::spec_hit(x, y, z, t_min, t_max),
    {
    }

    /// The union of two boxes without a NaN lies at or below both minimums
    /// and at or above both maximums, on every axis.
    pub proof fn lemma_combined_encloses(self, other: Aabb)
        requires
            self.numeric(),
            other.numeric(),
        ensures
            self.spec_combined(other).encloses(self),
            self.spec_combined(other).encloses(other),
            self.spec_combined(other).numeric(),
    {
    }

    /// The union is the smallest such box: a box that encloses both encloses
    /// their union.
    pub proof fn lemma_combined_least(self, other: Aabb, outer: Aabb)
        requires
            outer.encloses(self),
            outer.encloses(other),
        ensures
            outer.encloses(self.spec_combined(other)),
    {
    }

    /// The box around points without a NaN holds each of them.
    pub proof fn lemma_enclosing_holds(points: Seq<Vec3>, i: int)
        requires
            0 <= i < points.len(),
            forall|j: int| 0 <= j < points.len() ==> (#[trigger] points[j]).numeric(),
        ensures
            Aabb::spec_enclosing(points).holds(points[i]),
            Aabb::spec_enclosing(points).valid(),
        decreases points.len(),
    {
        let front = points.drop_last();
        if front.len() > 0 {
            let k = if i < front.len() { i } else { 0 };
            Aabb::lemma_enclosing_holds(front, k);
        }
    }
}

} // verus!
