use raytracer::aabb::{Aabb, Crossing};
use raytracer::bvh_node::{sorted_on, BhvNode, Bvh, BvhChild};
use raytracer::hittable::{HitRecord, Hittable};
use raytracer::hittable_list::HittableList;
use raytracer::materials::{Material, ScatterRecord};
use raytracer::ray::Ray;
use raytracer::scalar::Scalar;
use raytracer::vec2::Vec2;
use raytracer::vec3::Vec3;
use std::sync::Arc;

fn s(value: f32) -> Scalar {
    Scalar::from_bits(value.to_bits())
}

fn f(value: Scalar) -> f32 {
    f32::from_bits(value.to_bits())
}

fn v(x: f32, y: f32, z: f32) -> Vec3 {
    Vec3::new(s(x), s(y), s(z))
}

fn triple(a: Vec3) -> (f32, f32, f32) {
    (f(a.x), f(a.y), f(a.z))
}

fn ray(origin: (f32, f32, f32), direction: (f32, f32, f32)) -> Ray {
    Ray::new(v(origin.0, origin.1, origin.2), v(direction.0, direction.1, direction.2))
}

struct Plain {
    tag: u32,
}

impl Material for Plain {
    fn scatter(&self, _: &Ray, _: &HitRecord<Plain>) -> Option<ScatterRecord> {
        None
    }

    fn color_emmited(&self, _: Vec2, _: Vec3) -> Vec3 {
        v(0.0, 0.0, 0.0)
    }
}

/// A sphere, with the arithmetic done here.
struct Ball {
    center: (f32, f32, f32),
    radius: f32,
    material: Arc<Plain>,
    aabb: Option<Aabb>,
}

fn ball(center: (f32, f32, f32), radius: f32, tag: u32) -> Arc<Ball> {
    let (c, r) = (center, radius);
    let aabb = Aabb::new(v(c.0 - r, c.1 - r, c.2 - r), v(c.0 + r, c.1 + r, c.2 + r));
    Arc::new(Ball { center, radius, material: Arc::new(Plain { tag }), aabb: Some(aabb) })
}

fn dot(a: (f32, f32, f32), b: (f32, f32, f32)) -> f32 {
    a.0 * b.0 + a.1 * b.1 + a.2 * b.2
}

impl Hittable for Ball {
    type Material = Plain;

    fn hit(&self, ray: &Ray, t_min: Scalar, t_max: Scalar) -> Option<HitRecord<Plain>> {
        let origin = triple(ray.origin);
        let direction = triple(ray.direction);
        let oc = (origin.0 - self.center.0, origin.1 - self.center.1, origin.2 - self.center.2);
        let a = dot(direction, direction);
        let half_b = dot(oc, direction);
        let c = dot(oc, oc) - self.radius * self.radius;
        let discriminant = half_b * half_b - a * c;
        if discriminant < 0.0 {
            return None;
        }
        let root = (-half_b - discriminant.sqrt()) / a;
        if !s(root).within(t_min, t_max) {
            return None;
        }
        let point = (origin.0 + direction.0 * root, origin.1 + direction.1 * root, origin.2 + direction.2 * root);
        let normal = (
            (point.0 - self.center.0) / self.radius,
            (point.1 - self.center.1) / self.radius,
            (point.2 - self.center.2) / self.radius,
        );
        Some(HitRecord::new(
            v(point.0, point.1, point.2),
            s(dot(direction, normal)),
            v(normal.0, normal.1, normal.2),
            s(root),
            Vec2::new(s(0.0), s(0.0)),
            self.material.clone(),
        ))
    }

    fn bounding_box(&self) -> Option<Aabb> {
        self.aabb
    }
}

/// The slab test, with the arithmetic done here.
fn slab(aabb: Aabb, ray: Ray, t_min: Scalar, t_max: Scalar) -> bool {
    let mut crossings = Vec::new();
    for axis in 0..3 {
        let inverse = 1.0 / f(ray.direction.get(axis));
        let at_min = (f(aabb.min.get(axis)) - f(ray.origin.get(axis))) * inverse;
        let at_max = (f(aabb.max.get(axis)) - f(ray.origin.get(axis))) * inverse;
        crossings.push(Crossing::new(s(inverse), s(at_min), s(at_max)));
    }
    Aabb::hit(crossings[0], crossings[1], crossings[2], t_min, t_max)
}

/// A stream of numbers between 0 and 1 that is the same on every run.
struct Stream(u64);

impl Stream {
    fn next(&mut self) -> f32 {
        self.0 = self.0.wrapping_mul(6364136223846793005).wrapping_add(1442695040888963407);
        ((self.0 >> 40) as f32) / ((1u64 << 24) as f32)
    }
}

/// Balls that do not touch: one in each cell of a grid, smaller than the cell.
fn scattered(count: usize, stream: &mut Stream) -> Vec<Arc<Ball>> {
    let mut out = Vec::new();
    for i in 0..count {
        let cell = ((i % 5) as f32 * 3.0, ((i / 5) % 5) as f32 * 3.0, (i / 25) as f32 * 3.0);
        let center = (cell.0 + stream.next(), cell.1 + stream.next(), cell.2 + stream.next());
        out.push(ball(center, 0.3 + 0.6 * stream.next(), i as u32));
    }
    out
}

fn tags_below(child: &BvhChild<Ball>, out: &mut Vec<u32>) {
    match child {
        BvhChild::Leaf(leaf) => out.push(leaf.material.tag),
        BvhChild::Node(node) => {
            tags_below(&node.left, out);
            tags_below(&node.right, out);
        }
    }
}

fn box_of(child: &BvhChild<Ball>) -> Aabb {
    match child {
        BvhChild::Leaf(leaf) => leaf.aabb.unwrap(),
        BvhChild::Node(node) => node.aabb,
    }
}

fn same_box(a: &Aabb, b: &Aabb) -> bool {
    triple(a.min) == triple(b.min) && triple(a.max) == triple(b.max)
}

/// Checks a node and those below: the box is the union of the sides, the
/// first half of the shapes hangs on the left, and on some axis no shape on
/// the left starts after one on the right. Gives the number of shapes.
fn check_node(node: &BhvNode<Ball>, balls: &[Arc<Ball>]) -> usize {
    assert!(same_box(&node.aabb, &box_of(&node.left).combined(&box_of(&node.right))));
    let (mut left, mut right) = (Vec::new(), Vec::new());
    tags_below(&node.left, &mut left);
    tags_below(&node.right, &mut right);
    match (&node.left, &node.right) {
        (BvhChild::Leaf(a), BvhChild::Leaf(b)) => {
            if a.material.tag == b.material.tag {
                return 1;
            }
            assert!((0..3).any(|axis| !a.aabb.unwrap().min.get(axis).gt(b.aabb.unwrap().min.get(axis))));
            2
        }
        (BvhChild::Node(a), BvhChild::Node(b)) => {
            let (near, far) = (check_node(a, balls), check_node(b, balls));
            assert_eq!(near, (near + far) / 2);
            assert!(near + far > 2);
            let key = |tag: &u32, axis: usize| f(balls[*tag as usize].aabb.unwrap().min.get(axis));
            assert!((0..3).any(|axis| left.iter().all(|l| right.iter().all(|r| key(l, axis) <= key(r, axis)))));
            near + far
        }
        _ => panic!("a node with a shape on one side and a node on the other"),
    }
}

#[test]
fn a_tree_over_one_shape_holds_it_on_both_sides() {
    let balls = vec![ball((1.0, 2.0, 3.0), 1.0, 7)];
    let node = BhvNode::new(&balls, 0, 1);
    let mut tags = Vec::new();
    tags_below(&node.left, &mut tags);
    tags_below(&node.right, &mut tags);
    assert_eq!(tags, vec![7, 7]);
    assert_eq!(triple(node.aabb.min), (0.0, 1.0, 2.0));
    assert_eq!(triple(node.aabb.max), (2.0, 3.0, 4.0));
}

#[test]
fn a_tree_over_two_shapes_puts_the_lower_one_left() {
    let balls = vec![ball((5.0, 5.0, 5.0), 1.0, 0), ball((1.0, 1.0, 1.0), 1.0, 1)];
    for _ in 0..20 {
        let node = BhvNode::new(&balls, 0, 2);
        let mut tags = Vec::new();
        tags_below(&node.left, &mut tags);
        tags_below(&node.right, &mut tags);
        assert_eq!(tags, vec![1, 0]);
        assert_eq!(triple(node.aabb.min), (0.0, 0.0, 0.0));
        assert_eq!(triple(node.aabb.max), (6.0, 6.0, 6.0));
    }
}

#[test]
fn two_shapes_of_the_same_key_change_places() {
    let balls = vec![ball((1.0, 1.0, 1.0), 1.0, 0), ball((1.0, 1.0, 1.0), 1.0, 1)];
    let node = BhvNode::new(&balls, 0, 2);
    let mut tags = Vec::new();
    tags_below(&node.left, &mut tags);
    tags_below(&node.right, &mut tags);
    assert_eq!(tags, vec![1, 0]);
}

#[test]
fn a_tree_over_three_shapes_halves_them() {
    let balls = vec![ball((9.0, 9.0, 9.0), 1.0, 0), ball((1.0, 1.0, 1.0), 1.0, 1), ball((5.0, 5.0, 5.0), 1.0, 2)];
    for _ in 0..20 {
        let node = BhvNode::new(&balls, 0, 3);
        let (mut left, mut right) = (Vec::new(), Vec::new());
        tags_below(&node.left, &mut left);
        tags_below(&node.right, &mut right);
        assert_eq!(left, vec![1, 1]);
        assert_eq!(right, vec![2, 0]);
        assert_eq!(check_node(&node, &balls), 3);
    }
}

#[test]
fn a_tree_over_many_shapes_holds_each_and_keeps_its_boxes() {
    let mut stream = Stream(11);
    for count in [4usize, 5, 7, 16, 31, 60] {
        let balls = scattered(count, &mut stream);
        let node = BhvNode::new(&balls, 0, count);
        assert_eq!(check_node(&node, &balls), count);
        let mut tags = Vec::new();
        tags_below(&node.left, &mut tags);
        tags_below(&node.right, &mut tags);
        tags.sort();
        tags.dedup();
        let expected: Vec<u32> = (0..count as u32).collect();
        assert_eq!(tags, expected);
    }
}

#[test]
fn a_tree_over_a_part_of_the_list_holds_that_part_only() {
    let mut stream = Stream(5);
    let balls = scattered(12, &mut stream);
    let node = BhvNode::new(&balls, 3, 9);
    let mut tags = Vec::new();
    tags_below(&node.left, &mut tags);
    tags_below(&node.right, &mut tags);
    tags.sort();
    tags.dedup();
    assert_eq!(tags, vec![3, 4, 5, 6, 7, 8]);
    assert_eq!(check_node(&node, &balls), 6);
}

#[test]
fn from_hittable_list_takes_every_shape() {
    let mut stream = Stream(3);
    let balls = scattered(9, &mut stream);
    let list = HittableList::from_vec(balls.clone());
    let node = BhvNode::from_hittable_list(&list);
    assert_eq!(check_node(&node, &balls), 9);
}

#[test]
fn try_new_builds_what_new_builds() {
    let mut stream = Stream(8);
    let balls = scattered(10, &mut stream);
    let node = BhvNode::try_new(&balls, 0, 10).unwrap();
    assert_eq!(check_node(&node, &balls), 10);
}

#[test]
fn try_new_refuses_a_range_without_shapes() {
    let balls = vec![ball((0.0, 0.0, 0.0), 1.0, 0), ball((3.0, 0.0, 0.0), 1.0, 1)];
    assert!(BhvNode::try_new(&balls, 0, 0).is_none());
    assert!(BhvNode::try_new(&balls, 1, 1).is_none());
    assert!(BhvNode::try_new(&balls, 2, 1).is_none());
    assert!(BhvNode::try_new(&balls, 0, 3).is_none());
    let none: Vec<Arc<Ball>> = Vec::new();
    assert!(BhvNode::try_new(&none, 0, 0).is_none());
}

#[test]
fn try_new_refuses_a_shape_without_a_box() {
    let unbounded = Arc::new(Ball { center: (0.0, 0.0, 0.0), radius: 1.0, material: Arc::new(Plain { tag: 9 }), aabb: None });
    let balls = vec![ball((0.0, 0.0, 0.0), 1.0, 0), unbounded.clone(), ball((3.0, 0.0, 0.0), 1.0, 2)];
    assert!(BhvNode::try_new(&balls, 0, 3).is_none());
    assert!(BhvNode::try_new(&balls, 1, 2).is_none());
    assert!(BhvNode::try_new(&balls, 0, 1).is_some());
    assert!(BhvNode::try_new(&balls, 2, 3).is_some());
}

#[test]
fn try_new_refuses_a_key_that_is_a_nan_among_two_or_more() {
    let odd = Arc::new(Ball {
        center: (0.0, 0.0, 0.0),
        radius: 1.0,
        material: Arc::new(Plain { tag: 9 }),
        aabb: Some(Aabb::new(v(0.0, f32::NAN, 0.0), v(1.0, 1.0, 1.0))),
    });
    let balls = vec![ball((0.0, 0.0, 0.0), 1.0, 0), odd];
    assert!(BhvNode::try_new(&balls, 0, 2).is_none());
    assert!(BhvNode::try_new(&balls, 1, 2).is_some());
}

#[test]
fn bounding_box_is_the_box_of_the_node() {
    let balls = vec![ball((0.0, 0.0, 0.0), 1.0, 0), ball((3.0, 0.0, 0.0), 1.0, 1)];
    let node = BhvNode::new(&balls, 0, 2);
    let aabb = node.bounding_box().unwrap();
    assert_eq!(triple(aabb.min), (-1.0, -1.0, -1.0));
    assert_eq!(triple(aabb.max), (4.0, 1.0, 1.0));
}

#[test]
fn a_tree_and_a_list_of_the_same_shapes_hit_alike() {
    let mut stream = Stream(42);
    for count in [1usize, 2, 3, 8, 40] {
        let balls = scattered(count, &mut stream);
        let node = BhvNode::new(&balls, 0, count);
        let list = HittableList::from_vec(balls.clone());
        let mut hits = 0;
        for _ in 0..400 {
            let origin = (stream.next() * 30.0 - 8.0, stream.next() * 30.0 - 8.0, stream.next() * 20.0 - 8.0);
            let aim = &balls[(stream.next() * count as f32) as usize % count];
            let target = (aim.center.0 + stream.next() - 0.5, aim.center.1 + stream.next() - 0.5, aim.center.2 + stream.next() - 0.5);
            let eye = ray(origin, (target.0 - origin.0, target.1 - origin.1, target.2 - origin.2));
            for t_max in [f32::INFINITY, 0.9] {
                let from_tree = node.hit(&eye, s(0.001), s(t_max), &slab).map(|hit| f(hit.t));
                let from_list = list.hit(&eye, s(0.001), s(t_max)).map(|hit| f(hit.t));
                assert_eq!(from_tree, from_list);
                if from_tree.is_some() {
                    hits += 1;
                }
            }
        }
        assert!(hits > 100);
    }
}

#[test]
fn the_order_of_the_shapes_does_not_change_what_a_tree_hits() {
    let mut stream = Stream(17);
    let balls = scattered(20, &mut stream);
    let mut turned = balls.clone();
    turned.reverse();
    turned.swap(3, 11);
    let list = HittableList::from_vec(balls.clone());
    let node = BhvNode::new(&turned, 0, 20);
    for _ in 0..300 {
        let origin = (stream.next() * 30.0 - 8.0, stream.next() * 30.0 - 8.0, -9.0);
        let aim = &balls[(stream.next() * 20.0) as usize % 20];
        let eye = ray(origin, (aim.center.0 - origin.0, aim.center.1 - origin.1, aim.center.2 - origin.2));
        let from_tree = node.hit(&eye, s(0.001), s(f32::INFINITY), &slab).map(|hit| f(hit.t));
        let from_list = list.hit(&eye, s(0.001), s(f32::INFINITY)).map(|hit| f(hit.t));
        assert!(from_tree.is_some());
        assert_eq!(from_tree, from_list);
    }
}

#[test]
fn a_ray_that_the_box_test_turns_away_hits_nothing() {
    let balls = vec![ball((0.0, 0.0, 0.0), 1.0, 0), ball((3.0, 0.0, 0.0), 1.0, 1)];
    let node = BhvNode::new(&balls, 0, 2);
    let eye = ray((0.0, 0.0, 5.0), (0.0, 0.0, -1.0));
    assert!(node.hit(&eye, s(0.001), s(f32::INFINITY), &slab).is_some());
    assert!(node.hit(&eye, s(0.001), s(f32::INFINITY), &|_: Aabb, _: Ray, _: Scalar, _: Scalar| false).is_none());
}

#[test]
fn a_nearer_hit_on_the_right_is_preferred() {
    let balls = vec![ball((0.0, 0.0, -3.0), 1.0, 0), ball((3.0, 3.0, 3.0), 1.0, 1)];
    let node = BhvNode::new(&balls, 0, 2);
    let mut tags = Vec::new();
    tags_below(&node.left, &mut tags);
    assert_eq!(tags, vec![0]);
    let eye = ray((6.0, 6.0, 9.0), (-1.0, -1.0, -2.0));
    let hit = node.hit(&eye, s(0.001), s(f32::INFINITY), &slab).unwrap();
    assert_eq!(hit.material.tag, 1);
}

#[test]
fn a_farther_hit_on_the_right_is_not_found() {
    let balls = vec![ball((0.0, 0.0, 3.0), 1.0, 0), ball((3.0, 3.0, 9.0), 1.0, 1)];
    let node = BhvNode::new(&balls, 0, 2);
    let eye = ray((-1.0, -1.0, 1.0), (1.0, 1.0, 2.0));
    let hit = node.hit(&eye, s(0.001), s(f32::INFINITY), &slab).unwrap();
    assert_eq!(hit.material.tag, 0);
}

type Any = dyn Hittable<Material = Plain>;

type BoxTest = fn(Aabb, Ray, Scalar, Scalar) -> bool;

#[test]
fn a_tree_with_its_box_test_is_a_shape() {
    let mut stream = Stream(23);
    let balls = scattered(12, &mut stream);
    let list = HittableList::from_vec(balls.clone());
    let tree = Bvh::new(BhvNode::new(&balls, 0, 12), slab as BoxTest);
    assert_eq!(check_node(tree.root(), &balls), 12);
    let aabb = tree.bounding_box().unwrap();
    assert!(same_box(&aabb, &tree.root().aabb));
    assert!(same_box(&aabb, &list.bounding_box().unwrap()));
    for _ in 0..200 {
        let origin = (stream.next() * 30.0 - 8.0, stream.next() * 30.0 - 8.0, -9.0);
        let aim = &balls[(stream.next() * 12.0) as usize % 12];
        let eye = ray(origin, (aim.center.0 - origin.0, aim.center.1 - origin.1, aim.center.2 - origin.2));
        let from_tree = tree.hit(&eye, s(0.001), s(f32::INFINITY)).map(|hit| f(hit.t));
        let from_list = list.hit(&eye, s(0.001), s(f32::INFINITY)).map(|hit| f(hit.t));
        assert!(from_tree.is_some());
        assert_eq!(from_tree, from_list);
    }
}

#[test]
fn trees_stand_in_lists_and_below_trees() {
    let mut stream = Stream(29);
    let balls = scattered(30, &mut stream);
    let flat = HittableList::from_vec(balls.clone());
    let mut parts: Vec<Arc<Any>> = Vec::new();
    parts.push(Arc::new(Bvh::new(BhvNode::new(&balls, 0, 10), slab as BoxTest)));
    parts.push(Arc::new(HittableList::from_vec(balls[10..20].to_vec())));
    parts.push(Arc::new(Bvh::new(BhvNode::new(&balls, 20, 30), slab as BoxTest)));
    let above = Bvh::new(BhvNode::new(&parts, 0, 3), slab as BoxTest);
    let beside = HittableList::from_vec(parts.clone());
    assert!(same_box(&above.bounding_box().unwrap(), &flat.bounding_box().unwrap()));
    for _ in 0..300 {
        let origin = (stream.next() * 30.0 - 8.0, stream.next() * 30.0 - 8.0, -9.0);
        let aim = &balls[(stream.next() * 30.0) as usize % 30];
        let eye = ray(origin, (aim.center.0 - origin.0, aim.center.1 - origin.1, aim.center.2 - origin.2));
        let expected = flat.hit(&eye, s(0.001), s(f32::INFINITY)).map(|hit| f(hit.t));
        assert!(expected.is_some());
        assert_eq!(above.hit(&eye, s(0.001), s(f32::INFINITY)).map(|hit| f(hit.t)), expected);
        assert_eq!(beside.hit(&eye, s(0.001), s(f32::INFINITY)).map(|hit| f(hit.t)), expected);
    }
}

fn boxes_at(mins: &[(f32, f32, f32)]) -> Vec<Aabb> {
    mins.iter().map(|min| Aabb::new(v(min.0, min.1, min.2), v(min.0 + 1.0, min.1 + 1.0, min.2 + 1.0))).collect()
}

#[test]
fn sorted_on_orders_by_the_minimum_on_the_axis() {
    let boxes = boxes_at(&[(3.0, 0.0, -1.0), (1.0, 5.0, -2.0), (2.0, -5.0, -3.0), (0.0, 1.0, -4.0)]);
    let items = vec![0, 1, 2, 3];
    assert_eq!(sorted_on(&boxes, &items, 0), vec![3, 1, 2, 0]);
    assert_eq!(sorted_on(&boxes, &items, 1), vec![2, 0, 3, 1]);
    assert_eq!(sorted_on(&boxes, &items, 2), vec![3, 2, 1, 0]);
}

#[test]
fn sorted_on_takes_the_shapes_asked_for_only() {
    let boxes = boxes_at(&[(3.0, 0.0, 0.0), (1.0, 0.0, 0.0), (2.0, 0.0, 0.0), (0.0, 0.0, 0.0)]);
    assert_eq!(sorted_on(&boxes, &vec![2, 0], 0), vec![2, 0]);
    assert_eq!(sorted_on(&boxes, &vec![0, 3, 1], 0), vec![3, 1, 0]);
    assert_eq!(sorted_on(&boxes, &vec![1], 0), vec![1]);
    assert_eq!(sorted_on(&boxes, &Vec::new(), 0), Vec::<usize>::new());
}

#[test]
fn sorted_on_leaves_shapes_of_one_key_as_they_stood() {
    let boxes = boxes_at(&[(1.0, 0.0, 0.0), (0.0, 0.0, 0.0), (1.0, 0.0, 0.0), (-0.0, 0.0, 0.0), (1.0, 0.0, 0.0)]);
    assert_eq!(sorted_on(&boxes, &vec![0, 1, 2, 3, 4], 0), vec![1, 3, 0, 2, 4]);
    assert_eq!(sorted_on(&boxes, &vec![4, 3, 2, 1, 0], 0), vec![3, 1, 4, 2, 0]);
    assert_eq!(sorted_on(&boxes, &vec![2, 4, 0, 3, 1], 1), vec![2, 4, 0, 3, 1]);
}

#[test]
fn sorted_on_agrees_with_a_stable_sort_of_the_machine() {
    let mut stream = Stream(77);
    for count in [2usize, 3, 10, 57, 200] {
        let mins: Vec<(f32, f32, f32)> = (0..count)
            .map(|_| ((stream.next() * 8.0).floor() - 4.0, stream.next() * 1e6 - 5e5, (stream.next() * 3.0).floor()))
            .collect();
        let boxes = boxes_at(&mins);
        let items: Vec<usize> = (0..count).rev().collect();
        for axis in 0..3 {
            let key = |item: &usize| [mins[*item].0, mins[*item].1, mins[*item].2][axis];
            let mut expected = items.clone();
            expected.sort_by(|a, b| key(a).partial_cmp(&key(b)).unwrap());
            assert_eq!(sorted_on(&boxes, &items, axis), expected);
        }
    }
}
