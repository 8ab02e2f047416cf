//! A list of shapes that answers as one shape.

use vstd::prelude::*;
use std::sync::Arc;
use crate::aabb::Aabb;
use crate::hittable::{HitRecord, Hittable};
use crate::ray::Ray;
use crate::scalar::Scalar;

verus! {

/// Shapes that are hit together: the nearest hit on any of them counts.
pub struct HittableList<H: Hittable + ?Sized> {
    pub objects: Vec<Arc<H>>,
}

/// Whether an answer is a hit nearer than the bound.
pub open spec fn nearer<M: ?Sized>(answer: Option<HitRecord<M>>, bound: Scalar) -> bool {
    answer matches Some(hit) && hit.t.lt(bound)
}

/// The nearest hit among the answers and the bound it leaves: an answer
/// counts where it is a hit nearer than the bound left by those before it.
pub open spec fn nearest<M: ?Sized>(answers: Seq<Option<HitRecord<M>>>, t_max: Scalar) -> (
    Option<HitRecord<M>>,
    Scalar,
)
    decreases answers.len(),
{
    if answers.len() == 0 {
        (None, t_max)
    } else {
        let before = nearest(answers.drop_last(), t_max);
        if nearer(answers.last(), before.1) {
            (answers.last(), answers.last()->Some_0.t)
        } else {
            before
        }
    }
}

/// The union of the boxes, taken in turn.
pub open spec fn union_of(boxes: Seq<Option<Aabb>>) -> Aabb
    decreases boxes.len(),
{
    if boxes.len() <= 1 {
        boxes[0]->Some_0
    } else {
        union_of(boxes.drop_last()).spec_combined(boxes.last()->Some_0)
    }
}

impl<H: Hittable + ?Sized> HittableList<H> {
    /// Whether the answers are what the objects may give when asked in turn,
    /// each with the interval cut off at the nearest hit before it.
    pub open spec fn heard(
        objects: Seq<Arc<H>>,
        ray: Ray,
        t_min: Scalar,
        t_max: Scalar,
        answers: Seq<Option<HitRecord<H::Material>>>,
    ) -> bool {
        &&& answers.len() == objects.len()
        &&& forall|i: int|
            0 <= i < answers.len() ==> (#[trigger] objects[i]).may_hit(
                ray,
                t_min,
                nearest(answers.take(i), t_max).1,
                answers[i],
            )
    }

    /// Whether the boxes are what the objects may give when asked in turn,
    /// the asking stopping at the first object without a box.
    pub open spec fn measured(objects: Seq<Arc<H>>, boxes: Seq<Option<Aabb>>) -> bool {
        &&& boxes.len() <= objects.len()
        &&& forall|i: int| 0 <= i < boxes.len() ==> (#[trigger] objects[i]).may_bound(boxes[i])
        &&& forall|i: int| 0 <= i < boxes.len() - 1 ==> (#[trigger] boxes[i]) is Some
        &&& boxes.len() < objects.len() ==> boxes.len() > 0 && boxes.last() is None
    }

    pub fn new() -> (out: HittableList<H>)
        ensures
            out.objects@ == Seq::<Arc<H>>::empty(),
    {
        HittableList { objects: Vec::new() }
    }

    pub fn from_vec(objects: Vec<Arc<H>>) -> (out: HittableList<H>)
        ensures
            out.objects == objects,
    {
        HittableList { objects }
    }

    pub fn add(&mut self, value: Arc<H>)
        ensures
            final(self).objects@ == old(self).objects@.push(value),
    {
        self.objects.push(value);
    }
}

impl<H: Hittable + ?Sized> Hittable for HittableList<H> {
    type Material = H::Material;

    /// The list answers with the nearest of its objects' answers.
    open spec fn may_hit(
        &self,
        ray: Ray,
        t_min: Scalar,
        t_max: Scalar,
        out: Option<HitRecord<H::Material>>,
    ) -> bool {
        exists|answers: Seq<Option<HitRecord<H::Material>>>| #[trigger]
            Self::heard(self.objects@, ray, t_min, t_max, answers) && out == nearest(
                answers,
                t_max,
            ).0
    }

    /// The list has the union of its objects' boxes, and none where it is
    /// empty or an object has none.
    open spec fn may_bound(&self, out: Option<Aabb>) -> bool {
        exists|boxes: Seq<Option<Aabb>>| #[trigger]
            Self::measured(self.objects@, boxes) && out == if boxes.len() == 0 || boxes.last() is None {
                None
            } else {
                Some(union_of(boxes))
            }
    }

    fn hit(&self, ray: &Ray, t_min: Scalar, t_max: Scalar) -> (out: Option<HitRecord<H::Material>>) {
        let mut closest_hit_record: Option<HitRecord<H::Material>> = None;
        let mut closest_hit_t = t_max;
        let ghost mut answers: Seq<Option<HitRecord<H::Material>>> = Seq::empty();
        let mut i: usize = 0;
        while i < self.objects.len()
            invariant
                i <= self.objects.len(),
                answers.len() == i,
                forall|k: int|
                    0 <= k < i ==> (#[trigger] self.objects@[k]).may_hit(
                        *ray,
                        t_min,
                        nearest(answers.take(k), t_max).1,
                        answers[k],
                    ),
                (closest_hit_record, closest_hit_t) == nearest(answers, t_max),
            decreases self.objects.len() - i,
        {
            let answer = self.objects[i].hit(ray, t_min, closest_hit_t);
            proof {
                let longer = answers.push(answer);
                assert(longer.drop_last() == answers);
                assert(longer.take(i as int) == answers);
                assert forall|k: int| 0 <= k < i implies longer.take(k) == answers.take(k) by {}
                answers = longer;
            }
            if let Some(hit_record) = answer {
                if hit_record.t.lt(closest_hit_t) {
                    closest_hit_t = hit_record.t;
                    closest_hit_record = Some(hit_record);
                }
            }
            i += 1;
        }
        assert(Self::heard(self.objects@, *ray, t_min, t_max, answers));
        closest_hit_record
    }

    fn bounding_box(&self) -> (out: Option<Aabb>) {
        if self.objects.len() == 0 {
            assert(Self::measured(self.objects@, Seq::empty()));
            return None;
        }
        let first = self.objects[0].bounding_box();
        let ghost mut boxes: Seq<Option<Aabb>> = seq![first];
        let mut total = match first {
            Some(bb) => bb,
            None => {
                assert(Self::measured(self.objects@, boxes));
                return None;
            },
        };
        let mut i: usize = 1;
        while i < self.objects.len()
            invariant
                1 <= i <= self.objects.len(),
                boxes.len() == i,
                forall|k: int| 0 <= k < i ==> (#[trigger] self.objects@[k]).may_bound(boxes[k]),
                forall|k: int| 0 <= k < i ==> (#[trigger] boxes[k]) is Some,
                total == union_of(boxes),
            decreases self.objects.len() - i,
        {
            let next = self.objects[i].bounding_box();
            proof {
                let longer = boxes.push(next);
                assert(longer.drop_last() == boxes);
                boxes = longer;
            }
            match next {
                Some(bb) => {
                    total = total.combined(&bb);
                },
                None => {
                    assert(Self::measured(self.objects@, boxes));
                    return None;
                },
            }
            i += 1;
        }
        assert(Self::measured(self.objects@, boxes));
        Some(total)
    }
}

/// Whether the shape, for this ray and `t_min`, has one candidate that it
/// answers with whatever the upper bound: it gives the candidate where the
/// candidate is nearer than the bound, and otherwise nothing, or the
/// candidate where that lies at the bound.
pub open spec fn steady<H: Hittable + ?Sized>(
    object: &H,
    ray: Ray,
    t_min: Scalar,
    candidate: Option<HitRecord<H::Material>>,
) -> bool {
    forall|bound: Scalar, out: Option<HitRecord<H::Material>>| #[trigger]
        object.may_hit(ray, t_min, bound, out) ==> if nearer(candidate, bound) {
            out == candidate
        } else {
            out is None || (out == candidate && candidate->Some_0.t.le(bound))
        }
}

/// Whether the shape is steady for this ray and `t_min`, with some candidate.
pub open spec fn is_steady<H: Hittable + ?Sized>(object: &H, ray: Ray, t_min: Scalar) -> bool {
    exists|candidate: Option<HitRecord<H::Material>>| steady(object, ray, t_min, candidate)
}

/// A candidate of a steady shape.
pub open spec fn candidate_of<H: Hittable + ?Sized>(object: &H, ray: Ray, t_min: Scalar) -> Option<
    HitRecord<H::Material>,
> {
    choose|candidate: Option<HitRecord<H::Material>>| steady(object, ray, t_min, candidate)
}

/// The nearest of the answers is the first among those nearer than `t_max`
/// that none of them undercuts, and there is none only where no answer is
/// nearer than `t_max`.
pub proof fn lemma_nearest_is_least<M: ?Sized>(answers: Seq<Option<HitRecord<M>>>, t_max: Scalar)
    ensures
        nearest(answers, t_max).0 is None ==> nearest(answers, t_max).1 == t_max,
        nearest(answers, t_max).0 is None <==> forall|i: int|
            0 <= i < answers.len() ==> !nearer(#[trigger] answers[i], t_max),
        nearest(answers, t_max).0 matches Some(best) ==> {
            &&& nearest(answers, t_max).1 == best.t
            &&& best.t.lt(t_max)
            &&& exists|i: int|
                0 <= i < answers.len() && #[trigger] answers[i] == Some(best) && forall|j: int|
                    0 <= j < i ==> !nearer(#[trigger] answers[j], best.t)
            &&& forall|j: int|
                0 <= j < answers.len() && nearer(#[trigger] answers[j], t_max) ==> best.t.le(
                    answers[j]->Some_0.t,
                )
        },
    decreases answers.len(),
{
    if answers.len() > 0 {
        let front = answers.drop_last();
        let last = answers.len() - 1;
        lemma_nearest_is_least(front, t_max);
        let before = nearest(front, t_max);
        assert forall|i: int| 0 <= i < front.len() implies front[i] == answers[i] by {}
        if nearer(answers.last(), before.1) {
            let best = answers.last()->Some_0;
            assert(answers[last] == Some(best));
            assert forall|j: int| 0 <= j < last implies !nearer(#[trigger] answers[j], best.t) by {
                assert(front[j] == answers[j]);
            }
        } else if before.0 is Some {
            let best = before.0->Some_0;
            let i = choose|i: int|
                0 <= i < front.len() && #[trigger] front[i] == Some(best) && forall|j: int|
                    0 <= j < i ==> !nearer(#[trigger] front[j], best.t);
            assert(answers[i] == Some(best));
            assert forall|j: int| 0 <= j < i implies !nearer(#[trigger] answers[j], best.t) by {
                assert(front[j] == answers[j]);
            }
        } else {
            assert forall|i: int| 0 <= i < answers.len() implies !nearer(
                #[trigger] answers[i],
                t_max,
            ) by {
                if i < last {
                    assert(front[i] == answers[i]);
                }
            }
        }
    }
}

/// Answers that were given with the interval cut off at the nearest hit so
/// far lead to the same nearest hit as the candidates themselves.
pub proof fn lemma_pruning_loses_nothing<H: Hittable + ?Sized>(
    objects: Seq<Arc<H>>,
    ray: Ray,
    t_min: Scalar,
    t_max: Scalar,
    candidates: Seq<Option<HitRecord<H::Material>>>,
    answers: Seq<Option<HitRecord<H::Material>>>,
    upto: int,
)
    requires
        candidates.len() == objects.len(),
        forall|i: int| 0 <= i < objects.len() ==> steady(&*#[trigger] objects[i], ray, t_min, candidates[i]),
        HittableList::<H>::heard(objects, ray, t_min, t_max, answers),
        0 <= upto <= objects.len(),
    ensures
        nearest(answers.take(upto), t_max) == nearest(candidates.take(upto), t_max),
    decreases upto,
{
    if upto > 0 {
        let k = upto - 1;
        lemma_pruning_loses_nothing(objects, ray, t_min, t_max, candidates, answers, k);
        assert(answers.take(upto).drop_last() == answers.take(k));
        assert(candidates.take(upto).drop_last() == candidates.take(k));
        let bound = nearest(answers.take(k), t_max).1;
        assert(objects[k].may_hit(ray, t_min, bound, answers[k]));
        assert(steady(&*objects[k], ray, t_min, candidates[k]));
    }
}

/// Answers that were each given over the whole interval lead to the same
/// nearest hit as the candidates themselves.
pub proof fn lemma_whole_interval_scan<H: Hittable + ?Sized>(
    objects: Seq<Arc<H>>,
    ray: Ray,
    t_min: Scalar,
    t_max: Scalar,
    candidates: Seq<Option<HitRecord<H::Material>>>,
    whole: Seq<Option<HitRecord<H::Material>>>,
    upto: int,
)
    requires
        candidates.len() == objects.len(),
        whole.len() == objects.len(),
        forall|i: int| 0 <= i < objects.len() ==> steady(&*#[trigger] objects[i], ray, t_min, candidates[i]),
        forall|i: int| 0 <= i < objects.len() ==> (#[trigger] objects[i]).may_hit(ray, t_min, t_max, whole[i]),
        0 <= upto <= objects.len(),
    ensures
        nearest(whole.take(upto), t_max) == nearest(candidates.take(upto), t_max),
    decreases upto,
{
    if upto > 0 {
        let k = upto - 1;
        lemma_whole_interval_scan(objects, ray, t_min, t_max, candidates, whole, k);
        assert(whole.take(upto).drop_last() == whole.take(k));
        assert(candidates.take(upto).drop_last() == candidates.take(k));
        lemma_nearest_is_least(candidates.take(k), t_max);
        assert(objects[k].may_hit(ray, t_min, t_max, whole[k]));
        assert(steady(&*objects[k], ray, t_min, candidates[k]));
    }
}

/// The nearest answer below a bound is the nearest answer of all where that
/// lies below the bound, and otherwise there is none.
pub proof fn lemma_nearest_below<M: ?Sized>(answers: Seq<Option<HitRecord<M>>>, bound: Scalar)
    ensures
        nearest(answers, bound).0 == if nearer(nearest(answers, Scalar::infinity()).0, bound) {
            nearest(answers, Scalar::infinity()).0
        } else {
            None
        },
    decreases answers.len(),
{
    if answers.len() > 0 {
        let front = answers.drop_last();
        lemma_nearest_below(front, bound);
        lemma_nearest_is_least(front, bound);
        lemma_nearest_is_least(front, Scalar::infinity());
    }
}

/// A list of steady shapes is steady itself: its candidate is the nearest
/// of theirs.
pub proof fn lemma_list_is_steady<H: Hittable + ?Sized>(
    list: HittableList<H>,
    ray: Ray,
    t_min: Scalar,
    candidates: Seq<Option<HitRecord<H::Material>>>,
)
    requires
        candidates.len() == list.objects@.len(),
        forall|i: int|
            0 <= i < list.objects@.len() ==> steady(&*#[trigger] list.objects@[i], ray, t_min, candidates[i]),
    ensures
        steady(&list, ray, t_min, nearest(candidates, Scalar::infinity()).0),
        is_steady(&list, ray, t_min),
{
    let candidate = nearest(candidates, Scalar::infinity()).0;
    assert forall|bound: Scalar, out: Option<HitRecord<H::Material>>| #[trigger]
        list.may_hit(ray, t_min, bound, out) implies if nearer(candidate, bound) {
        out == candidate
    } else {
        out is None || (out == candidate && candidate->Some_0.t.le(bound))
    } by {
        let answers = choose|answers: Seq<Option<HitRecord<H::Material>>>| #[trigger]
            HittableList::<H>::heard(list.objects@, ray, t_min, bound, answers) && out == nearest(
                answers,
                bound,
            ).0;
        let n = list.objects@.len() as int;
        lemma_pruning_loses_nothing(list.objects@, ray, t_min, bound, candidates, answers, n);
        assert(answers.take(n) == answers);
        assert(candidates.take(n) == candidates);
        lemma_nearest_below(candidates, bound);
    }
    assert(steady(&list, ray, t_min, candidate));
}

impl<H: Hittable + ?Sized> HittableList<H> {
    /// A list of steady objects never answers with a hit farther than the
    /// nearest that a scan finds which asks every object over the whole
    /// interval: it answers with that very hit.
    pub proof fn lemma_hit_is_nearest(
        self,
        ray: Ray,
        t_min: Scalar,
        t_max: Scalar,
        candidates: Seq<Option<HitRecord<H::Material>>>,
        whole: Seq<Option<HitRecord<H::Material>>>,
        out: Option<HitRecord<H::Material>>,
    )
        requires
            candidates.len() == self.objects@.len(),
            whole.len() == self.objects@.len(),
            forall|i: int|
                0 <= i < self.objects@.len() ==> steady(
                    &*#[trigger] self.objects@[i],
                    ray,
                    t_min,
                    candidates[i],
                ),
            forall|i: int|
                0 <= i < self.objects@.len() ==> (#[trigger] self.objects@[i]).may_hit(
                    ray,
                    t_min,
                    t_max,
                    whole[i],
                ),
            self.may_hit(ray, t_min, t_max, out),
        ensures
            out == nearest(whole, t_max).0,
            forall|i: int|
                0 <= i < whole.len() && nearer(#[trigger] whole[i], t_max) ==> out is Some
                    && out->Some_0.t.le(whole[i]->Some_0.t),
            out is Some ==> exists|i: int| 0 <= i < whole.len() && #[trigger] whole[i] == out,
    {
        let answers = choose|answers: Seq<Option<HitRecord<H::Material>>>| #[trigger]
            Self::heard(self.objects@, ray, t_min, t_max, answers) && out == nearest(
                answers,
                t_max,
            ).0;
        let n = self.objects@.len() as int;
        lemma_pruning_loses_nothing(self.objects@, ray, t_min, t_max, candidates, answers, n);
        lemma_whole_interval_scan(self.objects@, ray, t_min, t_max, candidates, whole, n);
        assert(answers.take(n) == answers);
        assert(whole.take(n) == whole);
        assert(candidates.take(n) == candidates);
        lemma_nearest_is_least(whole, t_max);
    }
}

} // verus!
