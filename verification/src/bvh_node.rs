//! A bounding volume hierarchy: a binary tree of boxes over a list of
//! shapes, which lets a ray pass by the shapes whose box it misses.

use vstd::prelude::*;
use std::sync::Arc;
use crate::aabb::Aabb;
use crate::hittable::{HitRecord, Hittable};
use crate::hittable_list::{candidate_of, is_steady, lemma_nearest_is_least, nearer, nearest, steady, HittableList};
use crate::permutation::{lemma_insert_member, permutation, rearranged};
use crate::random::random_below;
use crate::ray::Ray;
use crate::scalar::Scalar;

verus! {

/// What hangs below a node: a shape of the list, or another node.
pub enum BvhChild<H: Hittable + ?Sized> {
    Leaf(Arc<H>),
    Node(Box<BhvNode<H>>),
}

/// A node of the tree: two sides, and a box around what hangs below them.
pub struct BhvNode<H: Hittable + ?Sized> {
    pub left: BvhChild<H>,
    pub right: BvhChild<H>,
    pub aabb: Aabb,
}

/// `Arc::clone` of std, which has no contract in vstd. It makes a second
/// handle to the same allocation; the contract claims that the value behind
/// the new handle is the value behind the old one, and no more.
#[verifier::external_body]
fn share<T: ?Sized>(handle: &Arc<T>) -> (out: Arc<T>)
    ensures
        out == *handle,
{
    Arc::clone(handle)
}

/// The number by which a shape is ordered on an axis: the minimum of its box
/// there.
pub open spec fn sort_key(boxes: Seq<Aabb>, item: usize, axis: int) -> Scalar {
    boxes[item as int].min.spec_get(axis)
}

/// Whether the keys do not fall along `order`.
pub open spec fn ascending(boxes: Seq<Aabb>, order: Seq<usize>, axis: int) -> bool {
    forall|i: int, j: int|
        0 <= i < j < order.len() ==> sort_key(boxes, #[trigger] order[i], axis).le(
            sort_key(boxes, #[trigger] order[j], axis),
        )
}

/// Whether shapes of the same key stand in `order` as they stood in `items`.
pub open spec fn stable(boxes: Seq<Aabb>, items: Seq<usize>, order: Seq<usize>, axis: int) -> bool {
    forall|i: int, j: int, p: int, q: int|
        0 <= i < j < order.len() && 0 <= p < items.len() && 0 <= q < items.len() && #[trigger] items[p]
            == #[trigger] order[i] && #[trigger] items[q] == #[trigger] order[j] && sort_key(
            boxes,
            order[i],
            axis,
        ).same(sort_key(boxes, order[j], axis)) ==> p < q
}

/// Whether, on the axis, no shape of the first half of `order` has a key
/// above that of a shape of the second half. The first half is the smaller
/// where the count is odd.
pub open spec fn parted_on(boxes: Seq<Aabb>, order: Seq<usize>, axis: int) -> bool {
    forall|i: int, j: int|
        0 <= i < order.len() / 2 <= j < order.len() ==> sort_key(boxes, #[trigger] order[i], axis).le(
            sort_key(boxes, #[trigger] order[j], axis),
        )
}

/// Whether the halves of `order` are parted on one of the three axes.
pub open spec fn parted(boxes: Seq<Aabb>, order: Seq<usize>) -> bool {
    exists|axis: int| 0 <= axis < 3 && #[trigger] parted_on(boxes, order, axis)
}

/// The upper bound that a first answer leaves to the search that follows:
/// the parameter of the hit, or the bound as it was.
pub open spec fn cut_at<M: ?Sized>(t_max: Scalar, first: Option<HitRecord<M>>) -> Scalar {
    match first {
        Some(hit) => hit.t,
        None => t_max,
    }
}

/// Whether none of the shapes has a candidate nearer than the bound.
pub open spec fn none_nearer<H: Hittable + ?Sized>(
    shapes: Seq<Arc<H>>,
    ray: Ray,
    t_min: Scalar,
    bound: Scalar,
) -> bool {
    forall|k: int|
        0 <= k < shapes.len() ==> !nearer(candidate_of(&*#[trigger] shapes[k], ray, t_min), bound)
}

/// What a node drew and made of it: the axis, and the shapes in their order
/// on it. It holds of any two.
pub open spec fn drawn(axis: int, sorted: Seq<usize>) -> bool {
    true
}

/// What a search found at a node: whether the ray passed the box, and the
/// answers of the two sides. It holds of any three.
pub open spec fn found<M: ?Sized>(
    through: bool,
    first: Option<HitRecord<M>>,
    second: Option<HitRecord<M>>,
) -> bool {
    true
}

impl<H: Hittable + ?Sized> BvhChild<H> {
    /// Whether a search below may answer `out`.
    pub open spec fn may_hit<F: Fn(Aabb, Ray, Scalar, Scalar) -> bool>(
        self,
        slab: F,
        ray: Ray,
        t_min: Scalar,
        t_max: Scalar,
        out: Option<HitRecord<H::Material>>,
    ) -> bool
        decreases self, 2int,
    {
        match self {
            BvhChild::Leaf(object) => object.may_hit(ray, t_min, t_max, out),
            BvhChild::Node(node) => node.may_hit(slab, ray, t_min, t_max, out),
        }
    }

    /// Whether the box test is cautious on every node below.
    pub open spec fn cautious<F: Fn(Aabb, Ray, Scalar, Scalar) -> bool>(
        self,
        slab: F,
        ray: Ray,
        t_min: Scalar,
    ) -> bool
        decreases self,
    {
        match self {
            BvhChild::Leaf(object) => true,
            BvhChild::Node(node) => node.cautious(slab, ray, t_min),
        }
    }

    /// The shapes below, from left to right.
    pub open spec fn leaves(self) -> Seq<Arc<H>>
        decreases self,
    {
        match self {
            BvhChild::Leaf(object) => seq![object],
            BvhChild::Node(node) => node.leaves(),
        }
    }
}

impl<H: Hittable + ?Sized> BhvNode<H> {
    /// The shapes below, from left to right. A node over a single shape
    /// holds it on both sides.
    pub open spec fn leaves(self) -> Seq<Arc<H>>
        decreases self,
    {
        self.left.leaves() + self.right.leaves()
    }

    /// Whether a search of the tree with the box test `slab` may answer
    /// `out`. A ray that the test finds to miss the node's box hits nothing.
    /// Otherwise the left side is searched, then the right side up to the
    /// hit on the left, if there was one, and a hit on the right is
    /// preferred.
    pub open spec fn may_hit<F: Fn(Aabb, Ray, Scalar, Scalar) -> bool>(
        self,
        slab: F,
        ray: Ray,
        t_min: Scalar,
        t_max: Scalar,
        out: Option<HitRecord<H::Material>>,
    ) -> bool
        decreases self, 1int,
    {
        exists|
            through: bool,
            first: Option<HitRecord<H::Material>>,
            second: Option<HitRecord<H::Material>>,
        |
            {
                &&& #[trigger] found(through, first, second)
                &&& call_ensures(slab, (self.aabb, ray, t_min, t_max), through)
                &&& if through {
                    &&& self.left.may_hit(slab, ray, t_min, t_max, first)
                    &&& self.right.may_hit(slab, ray, t_min, cut_at(t_max, first), second)
                    &&& out == if second is Some {
                        second
                    } else {
                        first
                    }
                } else {
                    out is None
                }
            }
    }

    /// Whether the box test is cautious on this node and those below: where
    /// it finds the ray to miss a node's box up to some bound, no shape
    /// below that node has a candidate nearer than the bound.
    pub open spec fn cautious<F: Fn(Aabb, Ray, Scalar, Scalar) -> bool>(
        self,
        slab: F,
        ray: Ray,
        t_min: Scalar,
    ) -> bool
        decreases self,
    {
        &&& forall|bound: Scalar| #[trigger]
            call_ensures(slab, (self.aabb, ray, t_min, bound), false) ==> none_nearer(
                self.leaves(),
                ray,
                t_min,
                bound,
            )
        &&& self.left.cautious(slab, ray, t_min)
        &&& self.right.cautious(slab, ray, t_min)
    }

    /// Whether this is the tree over the shapes `parts[order[0]]`,
    /// `parts[order[1]]` and so on, from left to right, where `boxes` holds
    /// the box of each shape of `parts`. A node over one shape holds it on
    /// both sides, a node over two holds one on each side, and a node over
    /// more holds a node over the first half on the left and one over the
    /// rest on the right. The halves of a node are parted on some axis, and
    /// its box is the union of the boxes of its two sides.
    pub open spec fn spans(self, parts: Seq<Arc<H>>, boxes: Seq<Aabb>, order: Seq<usize>) -> bool
        decreases self,
    {
        if order.len() == 1 {
            &&& self.left == BvhChild::Leaf(parts[order[0] as int])
            &&& self.right == BvhChild::Leaf(parts[order[0] as int])
            &&& self.aabb == boxes[order[0] as int].spec_combined(boxes[order[0] as int])
        } else if order.len() == 2 {
            &&& self.left == BvhChild::Leaf(parts[order[0] as int])
            &&& self.right == BvhChild::Leaf(parts[order[1] as int])
            &&& self.aabb == boxes[order[0] as int].spec_combined(boxes[order[1] as int])
            &&& parted(boxes, order)
        } else {
            &&& order.len() > 2
            &&& self.left matches BvhChild::Node(left)
            &&& self.right matches BvhChild::Node(right)
            &&& left.spans(parts, boxes, order.take((order.len() / 2) as int))
            &&& right.spans(parts, boxes, order.skip((order.len() / 2) as int))
            &&& self.aabb == left.aabb.spec_combined(right.aabb)
            &&& parted(boxes, order)
        }
    }

    /// Whether this is the tree that grows from the shapes `items`, which
    /// are places in `parts` and `boxes`, with some draw of an axis at every
    /// node.
    ///
    /// A node over one shape holds it on both sides. A node over two holds
    /// the first on the left where its key on the axis is below that of the
    /// second, and the second on the left otherwise. A node over more orders
    /// its shapes by their keys on the axis, shapes of one key staying as
    /// they stood, and holds the tree grown from the first half on the left
    /// and that grown from the rest on the right. The box of a node is the
    /// union of the boxes of its two sides.
    pub open spec fn grown(self, parts: Seq<Arc<H>>, boxes: Seq<Aabb>, items: Seq<usize>) -> bool
        decreases self,
    {
        exists|axis: int, sorted: Seq<usize>|
            {
                &&& #[trigger] drawn(axis, sorted)
                &&& 0 <= axis < 3
                &&& if items.len() == 1 {
                    &&& self.left == BvhChild::Leaf(parts[items[0] as int])
                    &&& self.right == BvhChild::Leaf(parts[items[0] as int])
                    &&& self.aabb == boxes[items[0] as int].spec_combined(boxes[items[0] as int])
                } else if items.len() == 2 {
                    let ordered = sort_key(boxes, items[0], axis).lt(sort_key(boxes, items[1], axis));
                    let near = if ordered {
                        items[0]
                    } else {
                        items[1]
                    };
                    let far = if ordered {
                        items[1]
                    } else {
                        items[0]
                    };
                    &&& self.left == BvhChild::Leaf(parts[near as int])
                    &&& self.right == BvhChild::Leaf(parts[far as int])
                    &&& self.aabb == boxes[near as int].spec_combined(boxes[far as int])
                } else {
                    &&& items.len() > 2
                    &&& rearranged(items, sorted)
                    &&& ascending(boxes, sorted, axis)
                    &&& stable(boxes, items, sorted, axis)
                    &&& self.left matches BvhChild::Node(left)
                    &&& self.right matches BvhChild::Node(right)
                    &&& left.grown(parts, boxes, sorted.take((items.len() / 2) as int))
                    &&& right.grown(parts, boxes, sorted.skip((items.len() / 2) as int))
                    &&& self.aabb == left.aabb.spec_combined(right.aabb)
                }
            }
    }

    /// Whether this is a tree over the shapes `objects[start..end]`: it has
    /// grown from them, taken in their order, with boxes that they may
    /// answer with, and so holds each of them, in some order from left to
    /// right.
    pub open spec fn built(self, objects: Seq<Arc<H>>, start: int, end: int) -> bool {
        exists|boxes: Seq<Aabb>, order: Seq<usize>|
            {
                &&& boxes.len() == end - start
                &&& forall|i: int|
                    0 <= i < boxes.len() ==> (#[trigger] objects[start + i]).may_bound(Some(boxes[i]))
                &&& permutation(order, end - start)
                &&& #[trigger] self.spans(objects.subrange(start, end), boxes, order)
                &&& self.grown(
                    objects.subrange(start, end),
                    boxes,
                    Seq::new((end - start) as nat, |i: int| i as usize),
                )
            }
    }

    /// Whether every shape of `objects[start..end]` answers with a box, and,
    /// where there are two shapes or more, one whose minimum holds no NaN.
    pub open spec fn measurable(objects: Seq<Arc<H>>, start: int, end: int) -> bool {
        forall|i: int, answer: Option<Aabb>|
            start <= i < end && #[trigger] objects[i].may_bound(answer) ==> answer is Some && (end - start
                >= 2 ==> answer->Some_0.min.numeric())
    }

    /// Whether some shape of `objects[start..end]` may answer without a box,
    /// or, where there are two shapes or more, with one whose minimum holds
    /// a NaN.
    pub open spec fn may_fail(objects: Seq<Arc<H>>, start: int, end: int) -> bool {
        exists|i: int, answer: Option<Aabb>|
            start <= i < end && #[trigger] objects[i].may_bound(answer) && (answer is None || (end
                - start >= 2 && !answer->Some_0.min.numeric()))
    }

    /// The tree over the shapes `src_objects[start..end]`, of which there
    /// must be one at least. Each node draws one of the three axes; a node
    /// over more than two shapes orders them by the minimum of their boxes
    /// on that axis and hands the first half to its left side.
    ///
    /// Every shape must answer with a box; where there are two or more, no
    /// minimum may hold a NaN.
    pub fn new(src_objects: &Vec<Arc<H>>, start: usize, end: usize) -> (out: BhvNode<H>)
        requires
            start < end <= src_objects.len(),
            Self::measurable(src_objects@, start as int, end as int),
        ensures
            out.built(src_objects@, start as int, end as int),
    {
        Self::try_new(src_objects, start, end).unwrap()
    }

    /// The tree over the shapes `src_objects[start..end]`, or nothing where
    /// there is no such range of one shape at least, where a shape answers
    /// without a box, or where there are two shapes or more and a minimum
    /// holds a NaN.
    pub fn try_new(src_objects: &Vec<Arc<H>>, start: usize, end: usize) -> (out: Option<BhvNode<H>>)
        ensures
            out matches Some(node) ==> start < end <= src_objects.len() && node.built(
                src_objects@,
                start as int,
                end as int,
            ),
            out is None ==> !(start < end <= src_objects.len()) || Self::may_fail(
                src_objects@,
                start as int,
                end as int,
            ),
            start < end <= src_objects.len() && Self::measurable(src_objects@, start as int, end as int)
                ==> out is Some,
    {
        if !(start < end && end <= src_objects.len()) {
            return None;
        }
        let boxes = match Self::measure(src_objects, start, end) {
            Some(boxes) => boxes,
            None => {
                return None;
            },
        };
        if end - start >= 2 && !Self::all_numeric(&boxes) {
            proof {
                let i = choose|i: int| 0 <= i < boxes.len() && !(#[trigger] boxes[i]).min.numeric();
                assert(src_objects[start + i].may_bound(Some(boxes[i])));
            }
            return None;
        }
        let items = Self::places(end - start);
        let (node, Ghost(order)) = Self::assemble(src_objects, start, &boxes, items);
        proof {
            assert forall|x: usize| order.contains(x) <==> x < end - start by {
                if items@.contains(x) {
                    let q = choose|q: int| 0 <= q < items@.len() && items@[q] == x;
                }
                if x < end - start {
                    assert(items@[x as int] == x);
                }
            }
            assert(node.spans(src_objects@.subrange(start as int, end as int), boxes@, order));
            assert(items@ == Seq::new((end - start) as nat, |i: int| i as usize));
        }
        Some(node)
    }

    /// The nearest hit of the ray on a shape of the tree. `slab` tests the
    /// ray against a box: it is given the box, the ray, `t_min` and the
    /// upper bound that holds at that node.
    pub fn hit<F: Fn(Aabb, Ray, Scalar, Scalar) -> bool>(
        &self,
        ray: &Ray,
        t_min: Scalar,
        t_max: Scalar,
        slab: &F,
    ) -> (out: Option<HitRecord<H::Material>>)
        requires
            forall|aabb: Aabb, ray: Ray, t_min: Scalar, t_max: Scalar| #[trigger]
                call_requires(*slab, (aabb, ray, t_min, t_max)),
        ensures
            self.may_hit(*slab, *ray, t_min, t_max, out),
        decreases self,
    {
        let through = slab(self.aabb, *ray, t_min, t_max);
        if !through {
            assert(found::<H::Material>(false, None, None));
            return None;
        }
        let hit_left = match &self.left {
            BvhChild::Leaf(object) => object.hit(ray, t_min, t_max),
            BvhChild::Node(node) => node.hit(ray, t_min, t_max, slab),
        };
        let t_max_right = match &hit_left {
            Some(hit) => hit.t,
            None => t_max,
        };
        let hit_right = match &self.right {
            BvhChild::Leaf(object) => object.hit(ray, t_min, t_max_right),
            BvhChild::Node(node) => node.hit(ray, t_min, t_max_right, slab),
        };
        let ghost first = hit_left;
        let ghost second = hit_right;
        let out = match hit_right {
            Some(hit) => Some(hit),
            None => hit_left,
        };
        assert(found(true, first, second));
        out
    }

    /// The node's box.
    pub fn bounding_box(&self) -> (out: Option<Aabb>)
        ensures
            out == Some(self.aabb),
    {
        Some(self.aabb)
    }

    /// The tree over all the shapes of a list.
    pub fn from_hittable_list(list: &HittableList<H>) -> (out: BhvNode<H>)
        requires
            list.objects.len() > 0,
            Self::measurable(list.objects@, 0, list.objects.len() as int),
        ensures
            out.built(list.objects@, 0, list.objects.len() as int),
    {
        Self::new(&list.objects, 0, list.objects.len())
    }

    /// The boxes of the shapes `objects[start..end]`, each asked once, or
    /// nothing as soon as a shape answers without one.
    fn measure(objects: &Vec<Arc<H>>, start: usize, end: usize) -> (out: Option<Vec<Aabb>>)
        requires
            start <= end <= objects.len(),
        ensures
            match out {
                Some(boxes) => {
                    &&& boxes.len() == end - start
                    &&& forall|i: int|
                        0 <= i < boxes.len() ==> (#[trigger] objects[start + i]).may_bound(Some(boxes[i]))
                },
                None => exists|i: int| start <= i < end && (#[trigger] objects[i]).may_bound(None),
            },
    {
        let mut boxes: Vec<Aabb> = Vec::new();
        let mut i: usize = start;
        while i < end
            invariant
                start <= i <= end <= objects.len(),
                boxes.len() == i - start,
                forall|k: int| 0 <= k < boxes.len() ==> (#[trigger] objects[start + k]).may_bound(Some(boxes[k])),
            decreases end - i,
        {
            match objects[i].bounding_box() {
                Some(found) => {
                    boxes.push(found);
                },
                None => {
                    assert(objects[i as int].may_bound(None));
                    return None;
                },
            }
            i += 1;
        }
        Some(boxes)
    }

    /// Whether the minimum of every box is free of NaN.
    fn all_numeric(boxes: &Vec<Aabb>) -> (out: bool)
        ensures
            out == forall|i: int| 0 <= i < boxes.len() ==> (#[trigger] boxes[i]).min.numeric(),
    {
        let mut i: usize = 0;
        while i < boxes.len()
            invariant
                i <= boxes.len(),
                forall|k: int| 0 <= k < i ==> (#[trigger] boxes[k]).min.numeric(),
            decreases boxes.len() - i,
        {
            let min = boxes[i].min;
            if min.x.is_nan() || min.y.is_nan() || min.z.is_nan() {
                return false;
            }
            i += 1;
        }
        true
    }

    /// The places `0..count`, in turn.
    fn places(count: usize) -> (out: Vec<usize>)
        ensures
            out.len() == count,
            forall|k: int| 0 <= k < count ==> out[k] == k,
    {
        let mut out: Vec<usize> = Vec::new();
        let mut k: usize = 0;
        while k < count
            invariant
                k <= count,
                out.len() == k,
                forall|j: int| 0 <= j < k ==> out[j] == j,
            decreases count - k,
        {
            out.push(k);
            k += 1;
        }
        out
    }

    /// The tree over the shapes `order`, which are places in `boxes` and,
    /// from `start` on, in `objects`. The second result is the order in which
    /// the tree holds them.
    fn assemble(objects: &Vec<Arc<H>>, start: usize, boxes: &Vec<Aabb>, items: Vec<usize>) -> (out: (
        BhvNode<H>,
        Ghost<Seq<usize>>,
    ))
        requires
            start + boxes.len() <= objects.len(),
            items.len() >= 1,
            items@.no_duplicates(),
            forall|k: int| 0 <= k < items.len() ==> (#[trigger] items[k]) < boxes.len(),
            items.len() >= 2 ==> forall|k: int|
                0 <= k < items.len() ==> boxes[(#[trigger] items[k]) as int].min.numeric(),
        ensures
            rearranged(items@, out.1@),
            out.0.spans(objects@.subrange(start as int, start + boxes.len()), boxes@, out.1@),
            out.0.grown(objects@.subrange(start as int, start + boxes.len()), boxes@, items@),
        decreases items.len(),
    {
        let ghost parts = objects@.subrange(start as int, start + boxes.len());
        let axis = random_below(3);
        let count = items.len();
        if count == 1 {
            let only = items[0];
            assert(parts[only as int] == objects[start + only]);
            let node = BhvNode {
                left: BvhChild::Leaf(share(&objects[start + only])),
                right: BvhChild::Leaf(share(&objects[start + only])),
                aabb: boxes[only].combined(&boxes[only]),
            };
            assert(drawn(axis as int, items@));
            (node, Ghost(items@))
        } else if count == 2 {
            let first = boxes[items[0]].min.get(axis);
            let second = boxes[items[1]].min.get(axis);
            let (near, far) = if first.lt(second) {
                (items[0], items[1])
            } else {
                (items[1], items[0])
            };
            let ghost order = seq![near, far];
            proof {
                assert(boxes[items[0] as int].min.numeric());
                assert(boxes[items[1] as int].min.numeric());
                assert(items@[0] != items@[1]);
                assert(parted_on(boxes@, order, axis as int));
                assert forall|x: usize| order.contains(x) <==> items@.contains(x) by {
                    if order.contains(x) {
                        let q = choose|q: int| 0 <= q < order.len() && order[q] == x;
                        assert(x == items@[0] || x == items@[1]);
                    }
                    if items@.contains(x) {
                        let q = choose|q: int| 0 <= q < items@.len() && items@[q] == x;
                        assert(x == order[0] || x == order[1]);
                    }
                }
                assert(parts[near as int] == objects[start + near]);
                assert(parts[far as int] == objects[start + far]);
            }
            let node = BhvNode {
                left: BvhChild::Leaf(share(&objects[start + near])),
                right: BvhChild::Leaf(share(&objects[start + far])),
                aabb: boxes[near].combined(&boxes[far]),
            };
            assert(drawn(axis as int, items@));
            (node, Ghost(order))
        } else {
            proof {
                assert forall|k: int| 0 <= k < items.len() implies !sort_key(
                    boxes@,
                    #[trigger] items[k],
                    axis as int,
                ).nan() by {
                    assert(boxes[items[k] as int].min.numeric());
                }
            }
            let middle = count / 2;
            let mut near_items = sorted_on(boxes, &items, axis);
            let ghost sorted = near_items@;
            let far_items = near_items.split_off(middle);
            proof {
                lemma_halves_of_sorted(boxes@, items@, sorted);
            }
            let (left, Ghost(left_order)) = Self::assemble(objects, start, boxes, near_items);
            let (right, Ghost(right_order)) = Self::assemble(objects, start, boxes, far_items);
            let ghost order = left_order + right_order;
            proof {
                lemma_halves_join(boxes@, items@, sorted, left_order, right_order, axis as int);
            }
            let node = BhvNode {
                aabb: left.aabb.combined(&right.aabb),
                left: BvhChild::Node(Box::new(left)),
                right: BvhChild::Node(Box::new(right)),
            };
            proof {
                assert(drawn(axis as int, sorted));
                assert(sorted.take(middle as int) == sorted.subrange(0, middle as int));
                assert(sorted.skip(middle as int) == sorted.subrange(middle as int, count as int));
            }
            (node, Ghost(order))
        }
    }
}

/// A tree together with its box test: a shape like any other, which can
/// stand in a list or below another tree.
pub struct Bvh<H: Hittable + ?Sized, F: Fn(Aabb, Ray, Scalar, Scalar) -> bool + Send + Sync> {
    root: BhvNode<H>,
    slab: F,
}

impl<H: Hittable + ?Sized, F: Fn(Aabb, Ray, Scalar, Scalar) -> bool + Send + Sync> Bvh<H, F> {
    /// The box test can be put to every box, ray and interval.
    #[verifier::type_invariant]
    spec fn wf(&self) -> bool {
        forall|aabb: Aabb, ray: Ray, t_min: Scalar, t_max: Scalar| #[trigger]
            call_requires(self.slab, (aabb, ray, t_min, t_max))
    }

    /// The tree.
    pub closed spec fn tree(&self) -> BhvNode<H> {
        self.root
    }

    /// The box test.
    pub closed spec fn box_test(&self) -> F {
        self.slab
    }

    /// The tree with its box test, which must take every box, ray and
    /// interval.
    pub fn new(root: BhvNode<H>, slab: F) -> (out: Bvh<H, F>)
        requires
            forall|aabb: Aabb, ray: Ray, t_min: Scalar, t_max: Scalar| #[trigger]
                call_requires(slab, (aabb, ray, t_min, t_max)),
        ensures
            out.tree() == root,
            out.box_test() == slab,
    {
        Bvh { root, slab }
    }

    /// The root of the tree.
    pub fn root(&self) -> (out: &BhvNode<H>)
        ensures
            *out == self.tree(),
    {
        &self.root
    }
}

impl<H: Hittable + ?Sized, F: Fn(Aabb, Ray, Scalar, Scalar) -> bool + Send + Sync> Hittable for Bvh<H, F> {
    type Material = H::Material;

    /// The shape answers as a search of its tree with its box test does.
    open spec fn may_hit(
        &self,
        ray: Ray,
        t_min: Scalar,
        t_max: Scalar,
        out: Option<HitRecord<H::Material>>,
    ) -> bool {
        self.tree().may_hit(self.box_test(), ray, t_min, t_max, out)
    }

    /// The shape has the box of the root.
    open spec fn may_bound(&self, out: Option<Aabb>) -> bool {
        out == Some(self.tree().aabb)
    }

    fn hit(&self, ray: &Ray, t_min: Scalar, t_max: Scalar) -> (out: Option<HitRecord<H::Material>>) {
        proof {
            use_type_invariant(self);
        }
        self.root.hit(ray, t_min, t_max, &self.slab)
    }

    fn bounding_box(&self) -> (out: Option<Aabb>) {
        self.root.bounding_box()
    }
}

/// The shapes `items`, which are places in `boxes` and all different, in the
/// order of their keys on an axis, a shape staying behind those of the same
/// key that came before it. No key may be a NaN.
pub fn sorted_on(boxes: &Vec<Aabb>, items: &Vec<usize>, axis: usize) -> (out: Vec<usize>)
    requires
        axis < 3,
        items@.no_duplicates(),
        forall|k: int| 0 <= k < items.len() ==> (#[trigger] items[k]) < boxes.len(),
        forall|k: int| 0 <= k < items.len() ==> !sort_key(boxes@, #[trigger] items[k], axis as int).nan(),
    ensures
        rearranged(items@, out@),
        ascending(boxes@, out@, axis as int),
        stable(boxes@, items@, out@, axis as int),
{
    let mut out: Vec<usize> = Vec::new();
    let mut k: usize = 0;
    while k < items.len()
        invariant
            axis < 3,
            k <= items.len(),
            items@.no_duplicates(),
            forall|k: int| 0 <= k < items.len() ==> (#[trigger] items[k]) < boxes.len(),
            forall|k: int|
                0 <= k < items.len() ==> !sort_key(boxes@, #[trigger] items[k], axis as int).nan(),
            out.len() == k,
            out@.no_duplicates(),
            forall|x: usize| out@.contains(x) <==> items@.take(k as int).contains(x),
            ascending(boxes@, out@, axis as int),
            stable(boxes@, items@.take(k as int), out@, axis as int),
        decreases items.len() - k,
    {
        let item = items[k];
        let key = boxes[item].min.get(axis);
        proof {
            assert forall|p: int| 0 <= p < out.len() implies (#[trigger] out@[p]) < boxes.len() && !sort_key(
                boxes@,
                out@[p],
                axis as int,
            ).nan() by {
                assert(out@.contains(out@[p]));
                let shorter = items@.take(k as int);
                let q = choose|q: int| 0 <= q < shorter.len() && shorter[q] == out@[p];
                assert(items[q] == out@[p]);
            }
        }
        let mut low: usize = 0;
        let mut high: usize = out.len();
        while low < high
            invariant
                axis < 3,
                low <= high <= out.len(),
                key == sort_key(boxes@, item, axis as int),
                !key.nan(),
                forall|p: int|
                    0 <= p < out.len() ==> (#[trigger] out@[p]) < boxes.len() && !sort_key(
                        boxes@,
                        out@[p],
                        axis as int,
                    ).nan(),
                ascending(boxes@, out@, axis as int),
                forall|p: int| 0 <= p < low ==> sort_key(boxes@, #[trigger] out@[p], axis as int).le(key),
                forall|p: int| high <= p < out.len() ==> key.lt(sort_key(boxes@, #[trigger] out@[p], axis as int)),
            decreases high - low,
        {
            let middle = low + (high - low) / 2;
            if key.lt(boxes[out[middle]].min.get(axis)) {
                high = middle;
            } else {
                low = middle + 1;
            }
        }
        proof {
            let before = out@;
            let after = out@.insert(low as int, item);
            assert(items@.take(k + 1) == items@.take(k as int).push(item));
            assert(!before.contains(item)) by {
                if before.contains(item) {
                    let shorter = items@.take(k as int);
                    let q = choose|q: int| 0 <= q < shorter.len() && shorter[q] == item;
                    assert(items[q] == items[k as int]);
                }
            }
            lemma_insert_member(before, low as int, item);
            assert forall|x: usize| after.contains(x) <==> items@.take(k + 1).contains(x) by {
                let shorter = items@.take(k as int);
                let longer = items@.take(k + 1);
                assert(after.contains(x) <==> (before.contains(x) || x == item));
                assert(before.contains(x) <==> shorter.contains(x));
                if shorter.contains(x) {
                    let q = choose|q: int| 0 <= q < shorter.len() && shorter[q] == x;
                    assert(longer[q] == x);
                    assert(longer.contains(x));
                }
                if x == item {
                    assert(longer[k as int] == x);
                    assert(longer.contains(x));
                }
                if longer.contains(x) {
                    let q = choose|q: int| 0 <= q < longer.len() && longer[q] == x;
                    if q < k {
                        assert(shorter[q] == x);
                        assert(shorter.contains(x));
                    }
                }
            }
            assert forall|i: int, j: int| 0 <= i < j < after.len() implies sort_key(
                boxes@,
                #[trigger] after[i],
                axis as int,
            ).le(sort_key(boxes@, #[trigger] after[j], axis as int)) by {
                let from = |p: int| if p < low { p } else { p - 1 };
                if i != low && j != low {
                    assert(after[i] == before[from(i)]);
                    assert(after[j] == before[from(j)]);
                } else if i == low {
                    assert(after[j] == before[from(j)]);
                } else {
                    assert(after[i] == before[from(i)]);
                }
            }
            let shorter = items@.take(k as int);
            let longer = items@.take(k + 1);
            assert forall|i: int, j: int, p: int, q: int|
                0 <= i < j < after.len() && 0 <= p < longer.len() && 0 <= q < longer.len()
                    && #[trigger] longer[p] == #[trigger] after[i] && #[trigger] longer[q]
                    == #[trigger] after[j] && sort_key(boxes@, after[i], axis as int).same(
                    sort_key(boxes@, after[j], axis as int),
                ) implies p < q by {
                let from = |p: int| if p < low { p } else { p - 1 };
                assert(items@[p] == longer[p]);
                assert(items@[q] == longer[q]);
                if i != low && j != low {
                    assert(after[i] == before[from(i)]);
                    assert(after[j] == before[from(j)]);
                    assert(before.contains(before[from(i)]));
                    assert(before.contains(before[from(j)]));
                    let r = choose|r: int| 0 <= r < shorter.len() && shorter[r] == after[i];
                    let t = choose|t: int| 0 <= t < shorter.len() && shorter[t] == after[j];
                    assert(items@[r] == items@[p]);
                    assert(items@[t] == items@[q]);
                    assert(shorter[p] == before[from(i)]);
                    assert(shorter[q] == before[from(j)]);
                } else if i == low {
                    assert(after[j] == before[from(j)]);
                } else {
                    assert(after[i] == before[from(i)]);
                    assert(before.contains(before[from(i)]));
                    let r = choose|r: int| 0 <= r < shorter.len() && shorter[r] == after[i];
                    assert(items@[r] == items@[p]);
                    assert(items@[k as int] == items@[q]);
                }
            }
        }
        out.insert(low, item);
        k += 1;
    }
    assert(items@.take(items.len() as int) == items@);
    out
}

/// The two halves of a rearrangement hold no shape twice, and only shapes
/// of which the same is known as of those that were rearranged.
proof fn lemma_halves_of_sorted(boxes: Seq<Aabb>, items: Seq<usize>, sorted: Seq<usize>)
    requires
        rearranged(items, sorted),
        forall|k: int| 0 <= k < items.len() ==> (#[trigger] items[k]) < boxes.len(),
        forall|k: int| 0 <= k < items.len() ==> boxes[(#[trigger] items[k]) as int].min.numeric(),
    ensures
        forall|k: int| 0 <= k < sorted.len() ==> (#[trigger] sorted[k]) < boxes.len(),
        forall|k: int| 0 <= k < sorted.len() ==> boxes[(#[trigger] sorted[k]) as int].min.numeric(),
        sorted.subrange(0, (sorted.len() / 2) as int).no_duplicates(),
        sorted.subrange((sorted.len() / 2) as int, sorted.len() as int).no_duplicates(),
{
    assert forall|k: int| 0 <= k < sorted.len() implies (#[trigger] sorted[k]) < boxes.len()
        && boxes[sorted[k] as int].min.numeric() by {
        assert(sorted.contains(sorted[k]));
        let q = choose|q: int| 0 <= q < items.len() && items[q] == sorted[k];
        assert(boxes[items[q] as int].min.numeric());
    }
}

/// Two orders of the halves of a sorted rearrangement, put one after the
/// other, are a rearrangement too, and parted where the halves meet.
proof fn lemma_halves_join(
    boxes: Seq<Aabb>,
    items: Seq<usize>,
    sorted: Seq<usize>,
    near_order: Seq<usize>,
    far_order: Seq<usize>,
    axis: int,
)
    requires
        rearranged(items, sorted),
        ascending(boxes, sorted, axis),
        rearranged(sorted.subrange(0, (sorted.len() / 2) as int), near_order),
        rearranged(sorted.subrange((sorted.len() / 2) as int, sorted.len() as int), far_order),
    ensures
        rearranged(items, near_order + far_order),
        parted_on(boxes, near_order + far_order, axis),
        (near_order + far_order).take((items.len() / 2) as int) == near_order,
        (near_order + far_order).skip((items.len() / 2) as int) == far_order,
{
    let count = sorted.len() as int;
    let middle = count / 2;
    let near = sorted.subrange(0, middle);
    let far = sorted.subrange(middle, count);
    let order = near_order + far_order;
    assert(order.take(middle) == near_order);
    assert(order.skip(middle) == far_order);
    assert forall|i: int| 0 <= i < middle implies near.contains(#[trigger] order[i]) by {
        assert(near_order.contains(near_order[i]));
    }
    assert forall|j: int| middle <= j < count implies far.contains(#[trigger] order[j]) by {
        assert(far_order.contains(far_order[j - middle]));
    }
    assert forall|i: int, j: int| 0 <= i < order.len() / 2 <= j < order.len() implies sort_key(
        boxes,
        #[trigger] order[i],
        axis,
    ).le(sort_key(boxes, #[trigger] order[j], axis)) by {
        let p = choose|p: int| 0 <= p < near.len() && near[p] == order[i];
        let q = choose|q: int| 0 <= q < far.len() && far[q] == order[j];
        assert(sorted[p] == order[i]);
        assert(sorted[middle + q] == order[j]);
    }
    assert forall|x: usize| order.contains(x) <==> items.contains(x) by {
        if order.contains(x) {
            let q = choose|q: int| 0 <= q < order.len() && order[q] == x;
            if q < middle {
                assert(near.contains(order[q]));
                let p = choose|p: int| 0 <= p < near.len() && near[p] == x;
                assert(sorted[p] == x);
            } else {
                assert(far.contains(order[q]));
                let p = choose|p: int| 0 <= p < far.len() && far[p] == x;
                assert(sorted[middle + p] == x);
            }
            assert(sorted.contains(x));
        }
        if items.contains(x) {
            assert(sorted.contains(x));
            let p = choose|p: int| 0 <= p < sorted.len() && sorted[p] == x;
            if p < middle {
                assert(near[p] == x);
                assert(near.contains(x));
                assert(near_order.contains(x));
                let q = choose|q: int| 0 <= q < near_order.len() && near_order[q] == x;
                assert(order[q] == x);
            } else {
                assert(far[p - middle] == x);
                assert(far.contains(x));
                assert(far_order.contains(x));
                let q = choose|q: int| 0 <= q < far_order.len() && far_order[q] == x;
                assert(order[middle + q] == x);
            }
        }
    }
    assert forall|i: int, j: int| 0 <= i < order.len() && 0 <= j < order.len() && i != j implies order[i]
        != order[j] by {
        if i < middle && j >= middle {
            let p = choose|p: int| 0 <= p < near.len() && near[p] == order[i];
            let q = choose|q: int| 0 <= q < far.len() && far[q] == order[j];
            assert(sorted[p] != sorted[middle + q]);
        } else if j < middle && i >= middle {
            let p = choose|p: int| 0 <= p < near.len() && near[p] == order[j];
            let q = choose|q: int| 0 <= q < far.len() && far[q] == order[i];
            assert(sorted[p] != sorted[middle + q]);
        } else if i < middle {
            assert(near_order[i] != near_order[j]);
        } else {
            assert(far_order[i - middle] != far_order[j - middle]);
        }
    }
}

impl<H: Hittable + ?Sized> BvhChild<H> {
    /// What `BhvNode::lemma_search_finds_nearest` says of a node holds of
    /// either of its sides.
    pub proof fn lemma_search_finds_nearest<F: Fn(Aabb, Ray, Scalar, Scalar) -> bool>(
        self,
        slab: F,
        ray: Ray,
        t_min: Scalar,
        t_max: Scalar,
        out: Option<HitRecord<H::Material>>,
    )
        requires
            forall|k: int| 0 <= k < self.leaves().len() ==> is_steady(&*#[trigger] self.leaves()[k], ray, t_min),
            self.cautious(slab, ray, t_min),
            self.may_hit(slab, ray, t_min, t_max, out),
        ensures
            out matches Some(hit) ==> hit.t.le(t_max) && exists|k: int|
                0 <= k < self.leaves().len() && candidate_of(&*#[trigger] self.leaves()[k], ray, t_min)
                    == out,
            forall|k: int|
                0 <= k < self.leaves().len() && nearer(
                    candidate_of(&*#[trigger] self.leaves()[k], ray, t_min),
                    t_max,
                ) ==> out is Some && out->Some_0.t.le(
                    candidate_of(&*self.leaves()[k], ray, t_min)->Some_0.t,
                ),
        decreases self, 1int,
    {
        match self {
            BvhChild::Leaf(object) => {
                assert(self.leaves()[0] == object);
                assert(is_steady(&*self.leaves()[0], ray, t_min));
                assert(steady(&*object, ray, t_min, candidate_of(&*object, ray, t_min)));
            },
            BvhChild::Node(node) => {
                node.lemma_search_finds_nearest(slab, ray, t_min, t_max, out);
            },
        }
    }
}

impl<H: Hittable + ?Sized> BhvNode<H> {
    /// A search of a tree of steady shapes with a cautious box test answers
    /// with the candidate of one of its shapes, at or before the bound, and
    /// with one at least as near as every candidate that is nearer than the
    /// bound. To prefer the hit on the right is therefore to prefer the
    /// nearer hit: the right side is searched up to the hit on the left, and
    /// so answers with nothing farther.
    pub proof fn lemma_search_finds_nearest<F: Fn(Aabb, Ray, Scalar, Scalar) -> bool>(
        self,
        slab: F,
        ray: Ray,
        t_min: Scalar,
        t_max: Scalar,
        out: Option<HitRecord<H::Material>>,
    )
        requires
            forall|k: int| 0 <= k < self.leaves().len() ==> is_steady(&*#[trigger] self.leaves()[k], ray, t_min),
            self.cautious(slab, ray, t_min),
            self.may_hit(slab, ray, t_min, t_max, out),
        ensures
            out matches Some(hit) ==> hit.t.le(t_max) && exists|k: int|
                0 <= k < self.leaves().len() && candidate_of(&*#[trigger] self.leaves()[k], ray, t_min)
                    == out,
            forall|k: int|
                0 <= k < self.leaves().len() && nearer(
                    candidate_of(&*#[trigger] self.leaves()[k], ray, t_min),
                    t_max,
                ) ==> out is Some && out->Some_0.t.le(
                    candidate_of(&*self.leaves()[k], ray, t_min)->Some_0.t,
                ),
        decreases self, 0int,
    {
        let leaves = self.leaves();
        let near = self.left.leaves();
        let far = self.right.leaves();
        assert forall|k: int| 0 <= k < near.len() implies is_steady(&*#[trigger] near[k], ray, t_min) by {
            assert(leaves[k] == near[k]);
        }
        assert forall|k: int| 0 <= k < far.len() implies is_steady(&*#[trigger] far[k], ray, t_min) by {
            assert(leaves[near.len() + k] == far[k]);
        }
        let (through, first, second) = choose|
            through: bool,
            first: Option<HitRecord<H::Material>>,
            second: Option<HitRecord<H::Material>>,
        |
            {
                &&& #[trigger] found(through, first, second)
                &&& call_ensures(slab, (self.aabb, ray, t_min, t_max), through)
                &&& if through {
                    &&& self.left.may_hit(slab, ray, t_min, t_max, first)
                    &&& self.right.may_hit(slab, ray, t_min, cut_at(t_max, first), second)
                    &&& out == if second is Some {
                        second
                    } else {
                        first
                    }
                } else {
                    out is None
                }
            };
        if through {
            let bound = cut_at(t_max, first);
            self.left.lemma_search_finds_nearest(slab, ray, t_min, t_max, first);
            self.right.lemma_search_finds_nearest(slab, ray, t_min, bound, second);
            if out is Some {
                if second is Some {
                    let k = choose|k: int|
                        0 <= k < far.len() && candidate_of(&*#[trigger] far[k], ray, t_min) == second;
                    assert(leaves[near.len() + k] == far[k]);
                } else {
                    let k = choose|k: int|
                        0 <= k < near.len() && candidate_of(&*#[trigger] near[k], ray, t_min) == first;
                    assert(leaves[k] == near[k]);
                }
            }
            assert forall|k: int|
                0 <= k < leaves.len() && nearer(
                    candidate_of(&*#[trigger] leaves[k], ray, t_min),
                    t_max,
                ) implies out is Some && out->Some_0.t.le(
                candidate_of(&*leaves[k], ray, t_min)->Some_0.t,
            ) by {
                if k < near.len() {
                    assert(leaves[k] == near[k]);
                } else {
                    assert(leaves[k] == far[k - near.len()]);
                }
            }
        } else {
            assert(none_nearer(leaves, ray, t_min, t_max));
        }
    }

    /// A tree and a list of the same steady shapes answer alike: both with a
    /// hit or both with none, and with hits at the same parameter. This
    /// holds with a cautious box test, and where no candidate lies at the
    /// upper bound itself, which a shape of the tree may still report and the
    /// list does not count.
    pub proof fn lemma_matches_list<F: Fn(Aabb, Ray, Scalar, Scalar) -> bool>(
        self,
        slab: F,
        list: HittableList<H>,
        ray: Ray,
        t_min: Scalar,
        t_max: Scalar,
        from_tree: Option<HitRecord<H::Material>>,
        from_list: Option<HitRecord<H::Material>>,
    )
        requires
            forall|i: int|
                0 <= i < list.objects@.len() ==> is_steady(&*#[trigger] list.objects@[i], ray, t_min),
            forall|i: int| 0 <= i < list.objects@.len() ==> self.leaves().contains(#[trigger] list.objects@[i]),
            forall|k: int| 0 <= k < self.leaves().len() ==> list.objects@.contains(#[trigger] self.leaves()[k]),
            forall|i: int|
                0 <= i < list.objects@.len() ==> !(candidate_of(
                    &*#[trigger] list.objects@[i],
                    ray,
                    t_min,
                ) matches Some(hit) && hit.t.same(t_max)),
            self.cautious(slab, ray, t_min),
            self.may_hit(slab, ray, t_min, t_max, from_tree),
            list.may_hit(ray, t_min, t_max, from_list),
        ensures
            from_tree is Some <==> from_list is Some,
            from_tree is Some ==> from_tree->Some_0.t.same(from_list->Some_0.t),
    {
        let objects = list.objects@;
        let leaves = self.leaves();
        let candidates = Seq::new(objects.len(), |i: int| candidate_of(&*objects[i], ray, t_min));
        assert forall|i: int| 0 <= i < objects.len() implies steady(
            &*#[trigger] objects[i],
            ray,
            t_min,
            candidates[i],
        ) by {
            assert(is_steady(&*objects[i], ray, t_min));
        }
        let answers = choose|answers: Seq<Option<HitRecord<H::Material>>>| #[trigger]
            HittableList::<H>::heard(objects, ray, t_min, t_max, answers) && from_list == nearest(
                answers,
                t_max,
            ).0;
        crate::hittable_list::lemma_pruning_loses_nothing(
            objects,
            ray,
            t_min,
            t_max,
            candidates,
            answers,
            objects.len() as int,
        );
        assert(answers.take(objects.len() as int) == answers);
        assert(candidates.take(objects.len() as int) == candidates);
        lemma_nearest_is_least(candidates, t_max);
        assert forall|k: int| 0 <= k < leaves.len() implies is_steady(&*#[trigger] leaves[k], ray, t_min) by {
            assert(objects.contains(leaves[k]));
            let i = choose|i: int| 0 <= i < objects.len() && objects[i] == leaves[k];
            assert(is_steady(&*objects[i], ray, t_min));
        }
        self.lemma_search_finds_nearest(slab, ray, t_min, t_max, from_tree);
        if from_tree is Some {
            let k = choose|k: int|
                0 <= k < leaves.len() && candidate_of(&*#[trigger] leaves[k], ray, t_min) == from_tree;
            assert(objects.contains(leaves[k]));
            let i = choose|i: int| 0 <= i < objects.len() && objects[i] == leaves[k];
            assert(candidates[i] == from_tree);
            assert(!(candidate_of(&*objects[i], ray, t_min) matches Some(hit) && hit.t.same(t_max)));
            assert(nearer(candidates[i], t_max));
        }
        if from_list is Some {
            let best = from_list->Some_0;
            let i = choose|i: int|
                0 <= i < candidates.len() && #[trigger] candidates[i] == Some(best) && forall|j: int|
                    0 <= j < i ==> !nearer(#[trigger] candidates[j], best.t);
            assert(leaves.contains(objects[i]));
            let k = choose|k: int| 0 <= k < leaves.len() && leaves[k] == objects[i];
            assert(nearer(candidate_of(&*leaves[k], ray, t_min), t_max));
        }
    }

    /// The tree over `order` holds the shapes `parts[order[..]]` and no
    /// others.
    pub proof fn lemma_spans_leaves(self, parts: Seq<Arc<H>>, boxes: Seq<Aabb>, order: Seq<usize>)
        requires
            self.spans(parts, boxes, order),
        ensures
            forall|k: int|
                0 <= k < self.leaves().len() ==> exists|i: int|
                    0 <= i < order.len() && #[trigger] self.leaves()[k] == parts[#[trigger] order[i] as int],
            forall|i: int| 0 <= i < order.len() ==> self.leaves().contains(parts[#[trigger] order[i] as int]),
        decreases self,
    {
        let leaves = self.leaves();
        let middle = (order.len() / 2) as int;
        if order.len() == 1 {
            assert(leaves =~= seq![parts[order[0] as int], parts[order[0] as int]]);
            assert(leaves[0] == parts[order[0] as int]);
        } else if order.len() == 2 {
            assert(leaves =~= seq![parts[order[0] as int], parts[order[1] as int]]);
            assert(leaves[0] == parts[order[0] as int]);
            assert(leaves[1] == parts[order[1] as int]);
        } else {
            let left = self.left->Node_0;
            let right = self.right->Node_0;
            let near = order.take(middle);
            let far = order.skip(middle);
            left.lemma_spans_leaves(parts, boxes, near);
            right.lemma_spans_leaves(parts, boxes, far);
            assert(leaves =~= left.leaves() + right.leaves());
            assert forall|k: int| 0 <= k < leaves.len() implies exists|i: int|
                0 <= i < order.len() && #[trigger] leaves[k] == parts[#[trigger] order[i] as int] by {
                if k < left.leaves().len() {
                    let i = choose|i: int|
                        0 <= i < near.len() && #[trigger] left.leaves()[k] == parts[#[trigger] near[i] as int];
                    assert(order[i] == near[i]);
                } else {
                    let j = k - left.leaves().len();
                    let i = choose|i: int|
                        0 <= i < far.len() && #[trigger] right.leaves()[j] == parts[#[trigger] far[i] as int];
                    assert(order[middle + i] == far[i]);
                }
            }
            assert forall|i: int| 0 <= i < order.len() implies leaves.contains(
                parts[#[trigger] order[i] as int],
            ) by {
                if i < middle {
                    assert(near[i] == order[i]);
                    let shape = parts[near[i] as int];
                    assert(left.leaves().contains(shape));
                    let k = choose|k: int| 0 <= k < left.leaves().len() && left.leaves()[k] == shape;
                    assert(leaves[k] == shape);
                } else {
                    assert(far[i - middle] == order[i]);
                    let shape = parts[far[i - middle] as int];
                    assert(right.leaves().contains(shape));
                    let k = choose|k: int| 0 <= k < right.leaves().len() && right.leaves()[k] == shape;
                    assert(leaves[left.leaves().len() + k] == shape);
                }
            }
        }
    }

    /// The box of a tree whose shapes have boxes without a NaN encloses the
    /// box of every one of them.
    pub proof fn lemma_box_encloses_the_shapes(self, parts: Seq<Arc<H>>, boxes: Seq<Aabb>, order: Seq<usize>)
        requires
            order.len() >= 1,
            self.spans(parts, boxes, order),
            forall|k: int| 0 <= k < order.len() ==> boxes[#[trigger] order[k] as int].numeric(),
        ensures
            self.aabb.numeric(),
            forall|k: int| 0 <= k < order.len() ==> self.aabb.encloses(boxes[#[trigger] order[k] as int]),
        decreases self,
    {
        let middle = (order.len() / 2) as int;
        if order.len() == 1 {
            boxes[order[0] as int].lemma_combined_encloses(boxes[order[0] as int]);
        } else if order.len() == 2 {
            boxes[order[0] as int].lemma_combined_encloses(boxes[order[1] as int]);
        } else {
            let left = self.left->Node_0;
            let right = self.right->Node_0;
            let near = order.take(middle);
            let far = order.skip(middle);
            assert forall|k: int| 0 <= k < near.len() implies boxes[#[trigger] near[k] as int].numeric() by {
                assert(near[k] == order[k]);
            }
            assert forall|k: int| 0 <= k < far.len() implies boxes[#[trigger] far[k] as int].numeric() by {
                assert(far[k] == order[middle + k]);
            }
            left.lemma_box_encloses_the_shapes(parts, boxes, near);
            right.lemma_box_encloses_the_shapes(parts, boxes, far);
            left.aabb.lemma_combined_encloses(right.aabb);
            assert forall|k: int| 0 <= k < order.len() implies self.aabb.encloses(
                boxes[#[trigger] order[k] as int],
            ) by {
                if k < middle {
                    assert(near[k] == order[k]);
                    assert(left.aabb.encloses(boxes[near[k] as int]));
                } else {
                    assert(far[k - middle] == order[k]);
                    assert(right.aabb.encloses(boxes[far[k - middle] as int]));
                }
            }
        }
    }

    /// A tree built over `objects[start..end]` holds each of these shapes
    /// and no others.
    pub proof fn lemma_built_holds_the_shapes(self, objects: Seq<Arc<H>>, start: int, end: int)
        requires
            0 <= start < end <= objects.len() <= usize::MAX,
            self.built(objects, start, end),
        ensures
            forall|k: int|
                0 <= k < self.leaves().len() ==> objects.subrange(start, end).contains(
                    #[trigger] self.leaves()[k],
                ),
            forall|i: int| start <= i < end ==> self.leaves().contains(#[trigger] objects[i]),
    {
        let parts = objects.subrange(start, end);
        let (boxes, order) = choose|boxes: Seq<Aabb>, order: Seq<usize>|
            {
                &&& boxes.len() == end - start
                &&& forall|i: int|
                    0 <= i < boxes.len() ==> (#[trigger] objects[start + i]).may_bound(Some(boxes[i]))
                &&& permutation(order, end - start)
                &&& #[trigger] self.spans(parts, boxes, order)
            };
        self.lemma_spans_leaves(parts, boxes, order);
        assert forall|k: int| 0 <= k < self.leaves().len() implies parts.contains(
            #[trigger] self.leaves()[k],
        ) by {
            let i = choose|i: int|
                0 <= i < order.len() && #[trigger] self.leaves()[k] == parts[#[trigger] order[i] as int];
            assert(order.contains(order[i]));
        }
        assert forall|i: int| start <= i < end implies self.leaves().contains(#[trigger] objects[i]) by {
            let place = (i - start) as usize;
            assert(order.contains(place));
            let q = choose|q: int| 0 <= q < order.len() && order[q] == place;
            assert(parts[order[q] as int] == objects[i]);
        }
    }

    /// A tree built over all the shapes of a list answers as the list does,
    /// under what `lemma_matches_list` asks.
    pub proof fn lemma_built_matches_list<F: Fn(Aabb, Ray, Scalar, Scalar) -> bool>(
        self,
        slab: F,
        list: HittableList<H>,
        ray: Ray,
        t_min: Scalar,
        t_max: Scalar,
        from_tree: Option<HitRecord<H::Material>>,
        from_list: Option<HitRecord<H::Material>>,
    )
        requires
            list.objects@.len() >= 1,
            self.built(list.objects@, 0, list.objects@.len() as int),
            forall|i: int|
                0 <= i < list.objects@.len() ==> is_steady(&*#[trigger] list.objects@[i], ray, t_min),
            forall|i: int|
                0 <= i < list.objects@.len() ==> !(candidate_of(
                    &*#[trigger] list.objects@[i],
                    ray,
                    t_min,
                ) matches Some(hit) && hit.t.same(t_max)),
            self.cautious(slab, ray, t_min),
            self.may_hit(slab, ray, t_min, t_max, from_tree),
            list.may_hit(ray, t_min, t_max, from_list),
        ensures
            from_tree is Some <==> from_list is Some,
            from_tree is Some ==> from_tree->Some_0.t.same(from_list->Some_0.t),
    {
        let objects = list.objects@;
        assert(objects.len() == list.objects.len());
        self.lemma_built_holds_the_shapes(objects, 0, objects.len() as int);
        assert(objects.subrange(0, objects.len() as int) == objects);
        self.lemma_matches_list(slab, list, ray, t_min, t_max, from_tree, from_list);
    }
}

} // verus!
