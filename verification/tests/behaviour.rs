//! Order, shape and envelopes after each kind of removal.

use std::cell::Cell;
use std::mem::forget;

use rstar::backtracking::{first_revisitable_child_index, visit_selected_leaves_in_place};
use rstar::node::envelope_for_children;
use rstar::{
    drain_with_backtracking_visitor, BacktrackingDrainVisitor, DefaultParams, DrainIterator,
    Envelope, IntoIter, ParentNode, RTree, RTreeNode, RTreeObject, RTreeParams,
    SelectInEnvelopeFuncIntersecting, SelectionFunction, VisitLeafControl, AABB,
};

type Point = [i32; 2];

#[derive(Debug, PartialEq)]
enum Shape {
    Leaf(i32),
    Node(Vec<Shape>),
}

use Shape::{Leaf, Node};

fn build(shape: Shape) -> RTreeNode<Point> {
    match shape {
        Leaf(x) => RTreeNode::Leaf([x, 0]),
        Node(children) => RTreeNode::Parent(parent(children)),
    }
}

fn parent(children: Vec<Shape>) -> ParentNode<Point> {
    ParentNode::new_parent(children.into_iter().map(build).collect())
}

fn tree(children: Vec<Shape>) -> RTree<Point> {
    RTree::from_root(parent(children))
}

/// The shape of a node, whose envelope and that of each node below must be the one around the
/// children.
fn shape(node: &ParentNode<Point>) -> Vec<Shape> {
    assert_eq!(node.envelope, envelope_for_children(&node.children));
    node.children
        .iter()
        .map(|child| match child {
            RTreeNode::Leaf(point) => Leaf(point[0]),
            RTreeNode::Parent(parent) => Node(shape(parent)),
        })
        .collect()
}

fn count(shapes: &[Shape]) -> usize {
    shapes
        .iter()
        .map(|child| match child {
            Leaf(_) => 1,
            Node(children) => count(children),
        })
        .sum()
}

fn assert_tree(tree: &RTree<Point>, expected: Vec<Shape>) {
    assert_eq!(tree.size(), count(&expected));
    assert_eq!(shape(tree.root()), expected);
}

/// Selects by the first coordinate.
struct Select<F>(F);

impl<F: Fn(i32) -> bool> SelectionFunction<Point> for Select<F> {
    fn should_unpack_parent(&self, _: &AABB<Point>) -> bool {
        true
    }

    fn should_unpack_leaf(&self, leaf: &Point) -> bool {
        self.0(leaf[0])
    }
}

struct Everything;

impl SelectionFunction<Point> for Everything {
    fn should_unpack_parent(&self, _: &AABB<Point>) -> bool {
        true
    }
}

struct Nowhere;

impl SelectionFunction<Point> for Nowhere {
    fn should_unpack_parent(&self, _: &AABB<Point>) -> bool {
        false
    }
}

fn drain_all<R: SelectionFunction<Point>>(tree: &mut RTree<Point>, function: R) -> Vec<i32> {
    let mut iter = tree.drain_with_selection_function(function);
    let mut yielded = Vec::new();
    while let Some(point) = iter.next() {
        yielded.push(point[0]);
    }
    assert!(iter.next().is_none());
    iter.drop();
    yielded
}

#[test]
fn drain_yields_in_swap_order() {
    let mut tree = tree((0..5).map(Leaf).collect());
    assert_eq!(drain_all(&mut tree, Everything), vec![0, 4, 3, 2, 1]);
    assert_tree(&tree, vec![]);
    assert_eq!(tree.root().envelope, AABB::new_empty());
}

#[test]
fn drain_keeps_what_is_not_selected() {
    let mut tree = tree((0..5).map(Leaf).collect());
    assert_eq!(drain_all(&mut tree, Select(|x| x % 2 == 0)), vec![0, 4, 2]);
    assert_tree(&tree, vec![Leaf(3), Leaf(1)]);
    assert_eq!(tree.root().envelope, AABB::from_corners([1, 0], [3, 0]));
}

#[test]
fn drain_takes_out_empty_subtrees() {
    let mut tree = tree(vec![
        Node(vec![Leaf(1)]),
        Node(vec![Node(vec![Leaf(2)]), Node(vec![Leaf(3), Leaf(4)])]),
    ]);
    assert_eq!(drain_all(&mut tree, Select(|x| x < 3)), vec![1, 2]);
    assert_tree(&tree, vec![Node(vec![Node(vec![Leaf(3), Leaf(4)])])]);
}

#[test]
fn drain_of_nothing_changes_nothing() {
    let shapes = || {
        vec![
            Node(vec![Leaf(1), Leaf(2)]),
            Leaf(3),
            Node(vec![Node(vec![Leaf(4)]), Leaf(5)]),
            Node(vec![Leaf(6)]),
        ]
    };
    let mut tree = tree(shapes());
    assert_eq!(drain_all(&mut tree, Select(|_| false)), Vec::<i32>::new());
    assert_tree(&tree, shapes());
    assert_eq!(drain_all(&mut tree, Nowhere), Vec::<i32>::new());
    assert_tree(&tree, shapes());
    assert_eq!(tree.remove_with_selection_function(Select(|x| x > 6)), None);
    assert_tree(&tree, shapes());
}

#[test]
fn drop_removes_only_what_was_yielded() {
    let mut tree = tree(vec![
        Node(vec![Leaf(1), Leaf(2)]),
        Node(vec![Leaf(3), Leaf(4)]),
        Node(vec![Leaf(5), Leaf(6)]),
    ]);
    let mut iter = DrainIterator::new(&mut tree, Everything);
    assert_eq!(iter.next(), Some([1, 0]));
    iter.drop();
    assert_tree(
        &tree,
        vec![
            Node(vec![Leaf(5), Leaf(6)]),
            Node(vec![Leaf(3), Leaf(4)]),
            Node(vec![Leaf(2)]),
        ],
    );
}

#[test]
fn drop_before_the_first_object_keeps_all() {
    let mut tree = tree(vec![Leaf(1), Leaf(2)]);
    DrainIterator::new(&mut tree, Everything).drop();
    assert_tree(&tree, vec![Leaf(1), Leaf(2)]);
}

#[test]
fn forgotten_drain_leaves_an_empty_tree() {
    let mut tree = tree(vec![Node(vec![Leaf(1)]), Leaf(2)]);
    let mut iter = DrainIterator::new(&mut tree, Everything);
    assert_eq!(iter.next(), Some([1, 0]));
    forget(iter);
    assert_tree(&tree, vec![]);
    assert_eq!(tree.root().envelope, AABB::new_empty());
}

#[test]
fn drain_of_an_empty_tree() {
    let mut tree = tree(vec![]);
    assert_eq!(drain_all(&mut tree, Everything), Vec::<i32>::new());
    assert_tree(&tree, vec![]);
}

/// Selects all but one object and counts how often it is asked about parents.
struct Counting(Cell<usize>);

impl<'a> SelectionFunction<Point> for &'a Counting {
    fn should_unpack_parent(&self, _: &AABB<Point>) -> bool {
        self.0.set(self.0.get() + 1);
        true
    }

    fn should_unpack_leaf(&self, leaf: &Point) -> bool {
        leaf[0] != 3
    }
}

#[test]
fn parents_are_asked_again_while_nothing_was_passed_over() {
    let mut tree = tree((0..5).map(Leaf).collect());
    let counting = Counting(Cell::new(0));
    assert_eq!(drain_all(&mut tree, &counting), vec![0, 4, 1, 2]);
    // Asked before 0, 4 and 3; not after 3 was passed over.
    assert_eq!(counting.0.get(), 3);
}

#[test]
fn pop_node_hands_out_the_root() {
    let mut tree = tree(vec![Node(vec![Leaf(1), Leaf(2)]), Node(vec![Leaf(3)])]);
    let mut iter = DrainIterator::new(&mut tree, Everything);
    assert_eq!(iter.next(), Some([1, 0]));
    // The node that holds 2 goes back to the root, in the place it had.
    assert!(iter.pop_node(true).is_none());
    let (root, removed) = iter.pop_node(true).unwrap();
    assert_eq!(removed, 1);
    assert_eq!(shape(&root), vec![Node(vec![Leaf(2)]), Node(vec![Leaf(3)])]);
}

#[test]
fn remove_finds_one_if_there_is_any() {
    let mut tree = tree(vec![Node(vec![Leaf(1), Leaf(2)]), Node(vec![Leaf(2)])]);
    assert_eq!(tree.remove_with_selection_function(Select(|x| x == 2)), Some([2, 0]));
    assert_eq!(tree.size(), 2);
    assert_eq!(tree.remove_with_selection_function(Select(|x| x == 2)), Some([2, 0]));
    assert_eq!(tree.remove_with_selection_function(Select(|x| x == 2)), None);
    assert_tree(&tree, vec![Node(vec![Leaf(1)])]);
}

#[test]
fn selection_in_envelope_reaches_what_meets_it() {
    let mut tree = tree(vec![
        Node(vec![Leaf(1), Leaf(9)]),
        Node(vec![Leaf(4), Leaf(5)]),
        Node(vec![Leaf(20), Leaf(30)]),
    ]);
    let region = AABB::from_corners([8, 3], [5, -3]);
    let mut yielded = drain_all(&mut tree, SelectInEnvelopeFuncIntersecting::new(region));
    yielded.sort();
    assert_eq!(yielded, vec![5]);
    let region = AABB::from_corners([0, 0], [9, 0]);
    let mut yielded = drain_all(&mut tree, SelectInEnvelopeFuncIntersecting::new(region));
    yielded.sort();
    assert_eq!(yielded, vec![1, 4, 9]);
    assert_tree(&tree, vec![Node(vec![Leaf(20), Leaf(30)])]);
}

/// A visitor that follows a script and notes what it was shown.
struct Script<'a> {
    controls: &'a [VisitLeafControl],
    seen: Vec<i32>,
    unpack: fn(&AABB<Point>) -> bool,
    revisit_leaf: fn(i32) -> bool,
}

impl<'a> Script<'a> {
    fn new(controls: &'a [VisitLeafControl]) -> Self {
        Script { controls, seen: Vec::new(), unpack: |_| true, revisit_leaf: |_| true }
    }
}

impl<'a> BacktrackingDrainVisitor<Point> for Script<'a> {
    fn should_unpack_parent(&self, envelope: &AABB<Point>) -> bool {
        (self.unpack)(envelope)
    }

    fn visit_leaf(&mut self, leaf: &Point) -> VisitLeafControl {
        self.seen.push(leaf[0]);
        self.controls[self.seen.len() - 1]
    }

    fn should_revisit_leaf(&self, leaf: &Point) -> bool {
        (self.revisit_leaf)(leaf[0])
    }
}

use VisitLeafControl::{Keep, Remove, RemoveAndRevisit, Stop};

#[test]
fn visitor_visits_leaves_in_swap_order() {
    let mut tree = tree((0..4).map(Leaf).collect());
    let mut visitor = Script::new(&[Keep, Remove, Remove, Keep]);
    assert_eq!(drain_with_backtracking_visitor(&mut tree, &mut visitor), 2);
    assert_eq!(visitor.seen, vec![0, 1, 3, 2]);
    assert_tree(&tree, vec![Leaf(0), Leaf(2)]);
}

#[test]
fn visitor_takes_out_empty_subtrees() {
    let mut tree = tree(vec![
        Node(vec![Leaf(1), Leaf(2)]),
        Node(vec![Leaf(3)]),
        Node(vec![Leaf(4)]),
    ]);
    let mut visitor = Script::new(&[Remove, Remove, Keep, Remove]);
    assert_eq!(tree.drain_with_backtracking_visitor(&mut visitor), 3);
    assert_eq!(visitor.seen, vec![1, 2, 4, 3]);
    assert_tree(&tree, vec![Node(vec![Leaf(4)])]);
}

#[test]
fn visitor_goes_back_within_a_node() {
    let mut tree = tree((0..4).map(Leaf).collect());
    let mut visitor =
        Script::new(&[Keep, Keep, RemoveAndRevisit, Remove, Keep, Keep]);
    visitor.revisit_leaf = |x| x == 1;
    assert_eq!(tree.drain_with_backtracking_visitor(&mut visitor), 2);
    // After 2 the first child to be revisited is 1; its place is taken by 3.
    assert_eq!(visitor.seen, vec![0, 1, 2, 1, 3]);
    assert_tree(&tree, vec![Leaf(0), Leaf(3)]);
}

#[test]
fn visitor_goes_back_through_the_nodes_above() {
    let mut tree = tree(vec![
        Node(vec![Node(vec![Leaf(1)]), Leaf(2)]),
        Node(vec![Leaf(3), Leaf(4)]),
    ]);
    let mut visitor = Script::new(&[
        Keep, Keep, Keep, RemoveAndRevisit, Keep, // back to 3
        Remove, Keep, // back to 1
        Remove, // 3 again, after the subtree that holds 2
    ]);
    assert_eq!(tree.drain_with_backtracking_visitor(&mut visitor), 3);
    assert_eq!(visitor.seen, vec![1, 2, 3, 4, 3, 1, 2, 3]);
    assert_tree(&tree, vec![Node(vec![Leaf(2)])]);
}

#[test]
fn visitor_stops_below_and_envelopes_are_put_in_order() {
    let mut tree = tree(vec![
        Node(vec![Leaf(1), Leaf(2), Leaf(3)]),
        Node(vec![Leaf(4)]),
    ]);
    let mut visitor = Script::new(&[Remove, Stop]);
    assert_eq!(tree.drain_with_backtracking_visitor(&mut visitor), 1);
    assert_eq!(visitor.seen, vec![1, 3]);
    assert_tree(&tree, vec![Node(vec![Leaf(3), Leaf(2)]), Node(vec![Leaf(4)])]);
}

#[test]
fn visitor_passes_over_subtrees() {
    let mut tree = tree(vec![Node(vec![Leaf(1)]), Node(vec![Leaf(9)])]);
    let mut visitor = Script::new(&[Remove]);
    visitor.unpack = |envelope| envelope.intersects(&AABB::from_corners([5, 0], [9, 0]));
    assert_eq!(tree.drain_with_backtracking_visitor(&mut visitor), 1);
    assert_eq!(visitor.seen, vec![9]);
    assert_tree(&tree, vec![Node(vec![Leaf(1)])]);
}

#[test]
fn visitor_is_not_asked_about_an_empty_tree_or_declines_the_root() {
    let mut empty = tree(vec![]);
    let mut visitor = Script::new(&[]);
    visitor.unpack = |_| panic!("an empty tree has nothing to unpack");
    assert_eq!(empty.drain_with_backtracking_visitor(&mut visitor), 0);

    let mut tree = tree(vec![Leaf(1)]);
    let mut visitor = Script::new(&[]);
    visitor.unpack = |_| false;
    assert_eq!(tree.drain_with_backtracking_visitor(&mut visitor), 0);
    assert_tree(&tree, vec![Leaf(1)]);
}

#[test]
fn visitor_that_removes_nothing_changes_nothing() {
    let shapes = || vec![Node(vec![Leaf(1), Leaf(2)]), Node(vec![Leaf(3)]), Leaf(4)];
    let mut tree = tree(shapes());
    let mut visitor = Script::new(&[Keep, Keep, Keep, Keep]);
    assert_eq!(tree.drain_with_backtracking_visitor(&mut visitor), 0);
    assert_eq!(visitor.seen, vec![1, 2, 3, 4]);
    assert_tree(&tree, shapes());
}

/// Removes the points in a box, and asks to go back each time.
struct Within(AABB<Point>);

impl BacktrackingDrainVisitor<Point> for Within {
    fn should_unpack_parent(&self, envelope: &AABB<Point>) -> bool {
        self.0.intersects(envelope)
    }

    fn visit_leaf(&mut self, leaf: &Point) -> VisitLeafControl {
        if leaf.envelope().intersects(&self.0) {
            VisitLeafControl::RemoveAndRevisit
        } else {
            VisitLeafControl::Keep
        }
    }
}

#[test]
fn visitor_by_choice_removes_exactly_the_chosen() {
    let mut tree = tree(vec![
        Node(vec![Leaf(0), Leaf(1), Leaf(2)]),
        Node(vec![Leaf(3), Leaf(4)]),
        Node(vec![Node(vec![Leaf(5)]), Node(vec![Leaf(9)])]),
    ]);
    let mut visitor = Within(AABB::from_corners([2, 0], [5, 0]));
    assert_eq!(tree.drain_with_backtracking_visitor(&mut visitor), 4);
    assert_tree(
        &tree,
        vec![Node(vec![Leaf(0), Leaf(1)]), Node(vec![Node(vec![Leaf(9)])])],
    );
    assert_eq!(tree.drain_with_backtracking_visitor(&mut visitor), 0);
}

#[test]
fn outcome_of_one_node() {
    let mut node = parent(vec![Leaf(1), Leaf(2), Leaf(3)]);
    let mut visitor = Script::new(&[RemoveAndRevisit, Keep, Stop]);
    let outcome = visit_selected_leaves_in_place(&mut node, &mut visitor);
    assert_eq!(outcome.removed, 1);
    assert!(outcome.revisit_ancestors);
    assert!(outcome.stopped);
    assert_eq!(visitor.seen, vec![1, 3, 2]);
    assert_eq!(shape(&node), vec![Leaf(3), Leaf(2)]);

    let mut visitor = Script::new(&[Keep, Remove]);
    let outcome = visit_selected_leaves_in_place(&mut node, &mut visitor);
    assert_eq!(outcome.removed, 1);
    assert!(!outcome.revisit_ancestors);
    assert!(!outcome.stopped);
    assert_eq!(shape(&node), vec![Leaf(3)]);
}

#[test]
fn first_child_to_be_revisited() {
    let node = parent(vec![Leaf(1), Leaf(2), Node(vec![Leaf(3)]), Leaf(4)]);
    let mut visitor = Script::new(&[]);
    visitor.revisit_leaf = |x| x == 4;
    assert_eq!(first_revisitable_child_index(&visitor, &node, 0), None);
    assert_eq!(first_revisitable_child_index(&visitor, &node, 2), None);
    // Subtrees go by whether they are to be unpacked.
    assert_eq!(first_revisitable_child_index(&visitor, &node, 3), Some(2));
    visitor.unpack = |_| false;
    assert_eq!(first_revisitable_child_index(&visitor, &node, 3), None);
    assert_eq!(first_revisitable_child_index(&visitor, &node, 9), Some(3));
    visitor.revisit_leaf = |_| true;
    assert_eq!(first_revisitable_child_index(&visitor, &node, 9), Some(0));
}

#[test]
fn whole_tree_from_the_back() {
    let mut iter = IntoIter::new(parent(vec![
        Leaf(1),
        Node(vec![Leaf(2), Node(vec![]), Leaf(3)]),
        Leaf(4),
    ]));
    let mut yielded = Vec::new();
    while let Some(point) = iter.next() {
        yielded.push(point[0]);
    }
    assert_eq!(yielded, vec![4, 3, 2, 1]);
    assert!(iter.next().is_none());
}

#[test]
fn boxes() {
    let mut aabb = AABB::from_corners([3, -1], [1, 5]);
    assert_eq!(aabb, AABB::from_corners([1, -1], [3, 5]));
    assert!(aabb.intersects(&AABB::from_corners([3, 5], [7, 7])));
    assert!(!aabb.intersects(&AABB::from_corners([4, 0], [7, 7])));
    aabb.merge(&[-2, 9].envelope());
    assert_eq!(aabb, AABB::from_corners([-2, -1], [3, 9]));
    let mut empty = AABB::new_empty();
    assert!(!empty.intersects(&aabb));
    empty.merge(&aabb);
    assert_eq!(empty, aabb);
    assert_eq!([4, 2].envelope(), AABB::from_corners([4, 2], [4, 2]));
}

#[test]
fn boxes_join_in_any_order() {
    let merged = |order: [usize; 3]| {
        let points = [[3, -4], [-7, 2], [0, 11]];
        let mut aabb = AABB::new_empty();
        for i in order {
            aabb.merge(&points[i].envelope());
        }
        aabb
    };
    assert_eq!(merged([0, 1, 2]), AABB::from_corners([-7, -4], [3, 11]));
    assert_eq!(merged([2, 0, 1]), merged([0, 1, 2]));
    assert_eq!(merged([1, 2, 0]), merged([0, 1, 2]));
}

struct WideParams;

impl RTreeParams for WideParams {
    const MIN_SIZE: usize = 0;
}

#[test]
fn parameters_do_not_change_what_is_removed() {
    let mut tree: RTree<Point, WideParams> = RTree::from_root(parent((0..3).map(Leaf).collect()));
    assert_eq!(tree.size(), 3);
    assert_eq!(tree.remove_with_selection_function(Everything), Some([0, 0]));
    assert_eq!(tree.size(), 2);
    assert_eq!(DefaultParams::MIN_SIZE, 3);
}
