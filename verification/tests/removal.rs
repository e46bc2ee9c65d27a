//! Draining, removal at a point, removal of equal objects, visitors and whole trees.

use std::cell::Cell;
use std::mem::{forget, replace};

use rand::{Rng, SeedableRng};
use rand_hc::Hc128Rng;
use rstar::{
    BacktrackingDrainVisitor, DrainIterator, Envelope, ParentNode, RTree, RTreeNode, RTreeObject,
    RTreeParams, SelectInEnvelopeFuncIntersecting, SelectionFunction, VisitLeafControl, AABB,
};

type Seed = [u8; 32];

const SEED_1: &Seed = b"wPYxAkIiHcEmSBAxQFoXFrpYToCe1B71";
const SEED_2: &Seed = b"4KbTVjPT4DXSwWAsQM5dkWWywPKZRfCX";

/// An axis aligned box with floating point corners.
#[derive(Clone, Copy, Debug, PartialEq)]
struct Bounds {
    lower: [f64; 2],
    upper: [f64; 2],
}

impl Bounds {
    fn from_corners(p: [f64; 2], q: [f64; 2]) -> Self {
        Bounds {
            lower: [p[0].min(q[0]), p[1].min(q[1])],
            upper: [p[0].max(q[0]), p[1].max(q[1])],
        }
    }

    fn contains_envelope(&self, other: &Bounds) -> bool {
        (0..2).all(|i| self.lower[i] <= other.lower[i] && other.upper[i] <= self.upper[i])
    }
}

impl Envelope for Bounds {
    fn nothing() -> Self {
        Self::new_empty()
    }

    fn join(mut self, other: Self) -> Self {
        self.merge(&other);
        self
    }

    fn meets(self, other: Self) -> bool {
        self.intersects(&other)
    }

    fn new_empty() -> Self {
        Bounds { lower: [f64::MAX; 2], upper: [f64::MIN; 2] }
    }

    fn merge(&mut self, other: &Self) {
        for i in 0..2 {
            self.lower[i] = self.lower[i].min(other.lower[i]);
            self.upper[i] = self.upper[i].max(other.upper[i]);
        }
    }

    fn intersects(&self, other: &Self) -> bool {
        (0..2).all(|i| self.lower[i] <= other.upper[i] && other.lower[i] <= self.upper[i])
    }
}

#[derive(Clone, Copy, Debug, PartialEq, PartialOrd)]
struct Point([f64; 2]);

impl RTreeObject for Point {
    type Envelope = Bounds;

    fn bounds(self) -> Bounds {
        self.envelope()
    }

    fn envelope(&self) -> Bounds {
        Bounds::from_corners(self.0, self.0)
    }
}

#[derive(Clone, Copy, Debug, PartialEq)]
struct Rectangle(Bounds);

impl RTreeObject for Rectangle {
    type Envelope = Bounds;

    fn bounds(self) -> Bounds {
        self.envelope()
    }

    fn envelope(&self) -> Bounds {
        self.0
    }
}

#[derive(Clone, Copy, Debug, PartialEq)]
struct Line {
    from: [f64; 2],
    to: [f64; 2],
}

impl RTreeObject for Line {
    type Envelope = Bounds;

    fn bounds(self) -> Bounds {
        self.envelope()
    }

    fn envelope(&self) -> Bounds {
        Bounds::from_corners(self.from, self.to)
    }
}

fn create_random_points(num_points: usize, seed: &Seed) -> Vec<Point> {
    let mut rng = Hc128Rng::from_seed(*seed);
    (0..num_points).map(|_| Point(rng.gen())).collect()
}

fn create_random_rectangles(num_rectangles: usize, seed: &Seed) -> Vec<Rectangle> {
    let mut rng = Hc128Rng::from_seed(*seed);
    (0..num_rectangles)
        .map(|_| Rectangle(Bounds::from_corners(rng.gen(), rng.gen())))
        .collect()
}

struct SelectAllFunc;

impl<T: RTreeObject> SelectionFunction<T> for SelectAllFunc {
    fn should_unpack_parent(&self, _: &T::Envelope) -> bool {
        true
    }
}

/// Selects the objects that are equal to a given one.
struct SelectEqualsFunc<'a, T>(&'a T);

impl<'a, T: RTreeObject<Envelope = Bounds> + PartialEq> SelectionFunction<T>
    for SelectEqualsFunc<'a, T>
{
    fn should_unpack_parent(&self, envelope: &Bounds) -> bool {
        envelope.contains_envelope(&self.0.envelope())
    }

    fn should_unpack_leaf(&self, leaf: &T) -> bool {
        self.0 == leaf
    }
}

const MAX_SIZE: usize = 6;

fn bulk_load<T: RTreeObject>(objects: Vec<T>) -> RTree<T> {
    let mut nodes: Vec<RTreeNode<T>> = objects.into_iter().map(RTreeNode::Leaf).collect();
    while nodes.len() > MAX_SIZE {
        let mut above = Vec::new();
        let mut rest = nodes.into_iter().peekable();
        while rest.peek().is_some() {
            let children: Vec<RTreeNode<T>> = rest.by_ref().take(MAX_SIZE).collect();
            above.push(RTreeNode::Parent(ParentNode::new_parent(children)));
        }
        nodes = above;
    }
    RTree::from_root(ParentNode::new_parent(nodes))
}

fn objects<T: RTreeObject>(tree: RTree<T>) -> Vec<T> {
    let mut iter = tree.into_iter();
    let mut result = Vec::new();
    while let Some(object) = iter.next() {
        result.push(object);
    }
    result
}

fn insert<T: RTreeObject>(tree: &mut RTree<T>, object: T) {
    let mut all = objects(replace(tree, bulk_load(Vec::new())));
    all.push(object);
    *tree = bulk_load(all);
}

fn locate<'a, T: RTreeObject>(
    node: &'a ParentNode<T>,
    function: &impl SelectionFunction<T>,
    found: &mut Vec<&'a T>,
) {
    if function.should_unpack_parent(&node.envelope) {
        for child in &node.children {
            match child {
                RTreeNode::Leaf(leaf) => {
                    if function.should_unpack_leaf(leaf) {
                        found.push(leaf);
                    }
                }
                RTreeNode::Parent(parent) => locate(parent, function, found),
            }
        }
    }
}

fn locate_with_selection_function<'a, T: RTreeObject>(
    tree: &'a RTree<T>,
    function: impl SelectionFunction<T>,
) -> Vec<&'a T> {
    let mut found = Vec::new();
    locate(tree.root(), &function, &mut found);
    found
}

fn contains<T: RTreeObject<Envelope = Bounds> + PartialEq>(tree: &RTree<T>, object: &T) -> bool {
    !locate_with_selection_function(tree, SelectEqualsFunc(object)).is_empty()
}

fn remove<T: RTreeObject<Envelope = Bounds> + PartialEq>(
    tree: &mut RTree<T>,
    object: &T,
) -> Option<T> {
    tree.remove_with_selection_function(SelectEqualsFunc(object))
}

fn remove_at_point(tree: &mut RTree<Point>, point: &Point) -> Option<Point> {
    tree.remove_with_selection_function(SelectEqualsFunc(point))
}

/// Draws at most `limit` objects, puts the tree back and returns how many there were.
fn drain_count<T, R, Params>(mut iter: DrainIterator<'_, T, R, Params>, limit: usize) -> usize
where
    T: RTreeObject,
    R: SelectionFunction<T>,
    Params: RTreeParams,
{
    let mut count = 0;
    while count < limit && iter.next().is_some() {
        count += 1;
    }
    iter.drop();
    count
}

#[test]
fn test_remove_and_insert() {
    const SIZE: usize = 1000;
    let points = create_random_points(SIZE, SEED_1);
    let later_insertions = create_random_points(SIZE, SEED_2);
    let mut tree = bulk_load(points.clone());
    for (point_to_remove, point_to_add) in points.iter().zip(later_insertions.iter()) {
        assert!(remove_at_point(&mut tree, point_to_remove).is_some());
        insert(&mut tree, *point_to_add);
    }
    assert_eq!(tree.size(), SIZE);
    assert!(points.iter().all(|p| !contains(&tree, p)));
    assert!(later_insertions.iter().all(|p| contains(&tree, p)));
    for point in &later_insertions {
        assert!(remove_at_point(&mut tree, point).is_some());
    }
    assert_eq!(tree.size(), 0);
}

#[test]
fn test_remove_and_insert_rectangles() {
    const SIZE: usize = 1000;
    let initial_rectangles = create_random_rectangles(SIZE, SEED_1);
    let new_rectangles = create_random_rectangles(SIZE, SEED_2);
    let mut tree = bulk_load(initial_rectangles.clone());

    for (rectangle_to_remove, rectangle_to_add) in
        initial_rectangles.iter().zip(new_rectangles.iter())
    {
        assert!(remove(&mut tree, rectangle_to_remove).is_some());
        insert(&mut tree, *rectangle_to_add);
    }
    assert_eq!(tree.size(), SIZE);
    assert!(initial_rectangles.iter().all(|p| !contains(&tree, p)));
    assert!(new_rectangles.iter().all(|p| contains(&tree, p)));
    for rectangle in &new_rectangles {
        assert!(contains(&tree, rectangle));
    }
    for rectangle in &initial_rectangles {
        assert!(!contains(&tree, rectangle));
    }
    for rectangle in &new_rectangles {
        assert!(remove(&mut tree, rectangle).is_some());
    }
    assert_eq!(tree.size(), 0);
}

#[test]
fn test_remove_at_point() {
    let points = create_random_points(1000, SEED_1);
    let mut tree = bulk_load(points.clone());
    for point in &points {
        let size_before_removal = tree.size();
        assert!(remove_at_point(&mut tree, point).is_some());
        assert!(remove_at_point(&mut tree, &Point([1000.0, 1000.0])).is_none());
        assert_eq!(size_before_removal - 1, tree.size());
    }
}

#[test]
fn test_remove() {
    let points = create_random_points(1000, SEED_1);
    let offsets = create_random_points(1000, SEED_2);
    let scaled = offsets.iter().map(|p| [p.0[0] * 0.05, p.0[1] * 0.05]);
    let edges: Vec<_> = points
        .iter()
        .zip(scaled)
        .map(|(from, offset)| Line {
            from: from.0,
            to: [from.0[0] + offset[0], from.0[1] + offset[1]],
        })
        .collect();
    let mut tree = bulk_load(edges.clone());
    for edge in &edges {
        let size_before_removal = tree.size();
        assert!(remove(&mut tree, edge).is_some());
        assert!(remove(&mut tree, edge).is_none());
        assert_eq!(size_before_removal - 1, tree.size());
    }
}

#[test]
fn test_drain_iterator() {
    const SIZE: usize = 1000;
    let points = create_random_points(SIZE, SEED_1);
    let mut tree = bulk_load(points);

    let count = drain_count(DrainIterator::new(&mut tree, SelectAllFunc), 250);
    assert_eq!(count, 250);
    assert_eq!(tree.size(), 750);

    let count = drain_count(DrainIterator::new(&mut tree, SelectAllFunc), 250);
    assert_eq!(count, 250);
    assert_eq!(tree.size(), 500);

    // A forgotten iterator takes the whole tree with it.
    forget(DrainIterator::new(&mut tree, SelectAllFunc));
    assert_eq!(tree.size(), 0);

    // The same tree can be used again.
    let points = create_random_points(1000, SEED_1);
    points.into_iter().for_each(|pt| insert(&mut tree, pt));

    // The total for this is 406 (for SEED_1).
    let env = Bounds::from_corners([-2., -0.6], [0.5, 0.85]);

    let sel = SelectInEnvelopeFuncIntersecting::new(env);
    let count = drain_count(DrainIterator::new(&mut tree, sel), 80);
    assert_eq!(count, 80);

    let sel = SelectInEnvelopeFuncIntersecting::new(env);
    let count = drain_count(DrainIterator::new(&mut tree, sel), usize::MAX);
    assert_eq!(count, 326);

    let sel = SelectInEnvelopeFuncIntersecting::new(env);
    let sel_count = locate_with_selection_function(&tree, sel).len();
    assert_eq!(sel_count, 0);
    assert_eq!(tree.size(), 1000 - 80 - 326);
}

fn holds(tree: &RTree<[i32; 2]>, point: &[i32; 2]) -> bool {
    locate_with_selection_function(tree, SelectAllFunc).contains(&point)
}

struct StopAtFirstLeaf {
    visited: bool,
}

impl BacktrackingDrainVisitor<[i32; 2]> for StopAtFirstLeaf {
    fn should_unpack_parent(&self, _: &AABB<[i32; 2]>) -> bool {
        true
    }

    fn visit_leaf(&mut self, _: &[i32; 2]) -> VisitLeafControl {
        assert!(!self.visited);
        self.visited = true;
        VisitLeafControl::Stop
    }
}

#[test]
fn test_drain_visitor_stop_keeps_current_leaf_and_stops() {
    let mut tree = bulk_load(vec![[0, 0], [1, 0]]);
    let mut visitor = StopAtFirstLeaf { visited: false };
    let removed = tree.drain_with_backtracking_visitor(&mut visitor);

    assert!(visitor.visited);
    assert_eq!(removed, 0);
    assert_eq!(tree.size(), 2);
    assert!(holds(&tree, &[0, 0]));
    assert!(holds(&tree, &[1, 0]));
}

struct DeclineRevisitOfFirstSeen {
    first_seen: Cell<Option<[i32; 2]>>,
    select_first_seen: bool,
}

impl BacktrackingDrainVisitor<[i32; 2]> for DeclineRevisitOfFirstSeen {
    fn should_unpack_parent(&self, _: &AABB<[i32; 2]>) -> bool {
        true
    }

    fn visit_leaf(&mut self, point: &[i32; 2]) -> VisitLeafControl {
        if self.select_first_seen {
            if self.first_seen.get() == Some(*point) {
                return VisitLeafControl::Remove;
            }
            return VisitLeafControl::Keep;
        }

        if self.first_seen.get().is_none() {
            self.first_seen.set(Some(*point));
            return VisitLeafControl::Keep;
        }

        assert_ne!(self.first_seen.get(), Some(*point));
        self.select_first_seen = true;
        VisitLeafControl::RemoveAndRevisit
    }

    fn should_revisit_leaf(&self, _: &[i32; 2]) -> bool {
        false
    }
}

#[test]
fn test_drain_visitor_remove_and_revisit_respects_revisit_predicate() {
    let mut tree = bulk_load(vec![[0, 0], [1, 0]]);
    let mut visitor = DeclineRevisitOfFirstSeen {
        first_seen: Cell::new(None),
        select_first_seen: false,
    };
    let removed = tree.drain_with_backtracking_visitor(&mut visitor);
    let first_seen = visitor.first_seen.get().unwrap();

    assert_eq!(removed, 1);
    assert_eq!(tree.size(), 1);
    assert!(holds(&tree, &first_seen));
}

#[test]
fn test_into_iter() {
    const SIZE: usize = 100;
    let mut points = create_random_points(SIZE, SEED_1);
    let tree = bulk_load(points.clone());

    let mut vec = objects(tree);

    assert_eq!(vec.len(), points.len());

    points.sort_unstable_by(|lhs, rhs| lhs.partial_cmp(rhs).unwrap());
    vec.sort_unstable_by(|lhs, rhs| lhs.partial_cmp(rhs).unwrap());

    assert_eq!(points, vec);
}
