//! The laws of removal on concrete trees.

use rstar::node::envelope_for_children;
use rstar::{
    BacktrackingDrainVisitor, Envelope, ParentNode, RTree, RTreeNode, RTreeObject,
    RemoveSelected, SelectInEnvelopeFuncIntersecting, SelectionFunction, VisitLeafControl, AABB,
};

type Point = [i32; 2];

fn leaf(x: i32) -> RTreeNode<Point> {
    RTreeNode::Leaf([x, 0])
}

fn node(children: Vec<RTreeNode<Point>>) -> RTreeNode<Point> {
    RTreeNode::Parent(ParentNode::new_parent(children))
}

fn leaves(xs: &[i32]) -> RTreeNode<Point> {
    node(xs.iter().map(|x| leaf(*x)).collect())
}

fn tree(children: Vec<RTreeNode<Point>>) -> RTree<Point> {
    RTree::from_root(ParentNode::new_parent(children))
}

/// Three subtrees of two subtrees of three objects each, 0 to 17.
fn large() -> RTree<Point> {
    let triple = |i: i32| leaves(&[3 * i, 3 * i + 1, 3 * i + 2]);
    tree((0..3).map(|i| node(vec![triple(2 * i), triple(2 * i + 1)])).collect())
}

fn text(parent: &ParentNode<Point>) -> String {
    let mut children: Vec<String> = Vec::new();
    for child in &parent.children {
        children.push(match child {
            RTreeNode::Leaf(point) => format!("{}", point[0]),
            RTreeNode::Parent(parent) => text(parent),
        });
    }
    format!("({})", children.join(" "))
}

fn collect(parent: &ParentNode<Point>, found: &mut Vec<i32>) {
    for child in &parent.children {
        match child {
            RTreeNode::Leaf(point) => found.push(point[0]),
            RTreeNode::Parent(parent) => collect(parent, found),
        }
    }
}

/// The objects of the tree, in order.
fn held(tree: &RTree<Point>) -> Vec<i32> {
    let mut found = Vec::new();
    collect(tree.root(), &mut found);
    found.sort();
    assert_eq!(found.len(), tree.size());
    found
}

fn assert_tight(parent: &ParentNode<Point>) {
    assert_eq!(parent.envelope, envelope_for_children(&parent.children));
    for child in &parent.children {
        if let RTreeNode::Parent(parent) = child {
            assert_tight(parent);
        }
    }
}

/// The objects that are children of the same node as `x`, if it is `depth` levels below `parent`.
fn siblings(parent: &ParentNode<Point>, depth: usize, x: i32) -> Vec<i32> {
    let mut found = Vec::new();
    for child in &parent.children {
        match child {
            RTreeNode::Leaf(point) => {
                assert_eq!(depth, 1);
                found.push(point[0]);
            }
            RTreeNode::Parent(parent) => {
                assert!(!parent.children.is_empty());
                let below = siblings(parent, depth - 1, x);
                if below.contains(&x) {
                    return below;
                }
            }
        }
    }
    found.sort();
    found
}

#[derive(Clone, Copy)]
struct Select(fn(i32) -> bool);

impl SelectionFunction<Point> for Select {
    fn should_unpack_parent(&self, _: &AABB<Point>) -> bool {
        true
    }

    fn should_unpack_leaf(&self, leaf: &Point) -> bool {
        self.0(leaf[0])
    }
}

/// Drains `n` objects at most.
fn drain<R: SelectionFunction<Point>>(
    tree: &mut RTree<Point>,
    function: R,
    n: usize,
) -> Vec<i32> {
    let mut iter = tree.drain_with_selection_function(function);
    let mut yielded = Vec::new();
    while yielded.len() < n {
        match iter.next() {
            Some(point) => yielded.push(point[0]),
            None => break,
        }
    }
    iter.drop();
    yielded.sort();
    yielded
}

fn between(a: i32, b: i32) -> SelectInEnvelopeFuncIntersecting<Point> {
    SelectInEnvelopeFuncIntersecting::new(AABB::from_corners([a, 0], [b, 0]))
}

#[test]
fn a_second_drain_changes_nothing() {
    let mut tree = large();
    assert_eq!(drain(&mut tree, between(4, 8), 100), vec![4, 5, 6, 7, 8]);
    let shape = text(tree.root());
    assert_eq!(drain(&mut tree, between(4, 8), 100), Vec::<i32>::new());
    assert_eq!(text(tree.root()), shape);
    assert_eq!(tree.size(), 13);
    assert_tight(tree.root());
}

#[test]
fn a_second_drain_changes_nothing_where_subtrees_were_empty() {
    let mut tree = tree(vec![node(vec![]), node(vec![leaf(1), node(vec![])]), leaf(2)]);
    assert_eq!(drain(&mut tree, Select(|x| x == 2), 100), vec![2]);
    assert_eq!(text(tree.root()), "((1))");
    assert_eq!(drain(&mut tree, Select(|x| x == 2), 100), Vec::<i32>::new());
    assert_eq!(text(tree.root()), "((1))");
}

#[test]
fn a_second_visit_changes_nothing() {
    let mut tree = large();
    let mut visitor = RemoveSelected { function: Select(|x| x % 4 != 0) };
    assert_eq!(tree.drain_with_backtracking_visitor(&mut visitor), 13);
    assert_eq!(held(&tree), vec![0, 4, 8, 12, 16]);
    let shape = text(tree.root());
    assert_eq!(tree.drain_with_backtracking_visitor(&mut visitor), 0);
    assert_eq!(text(tree.root()), shape);
}

#[test]
fn a_drain_may_be_resumed() {
    let mut whole = large();
    let all = drain(&mut whole, between(3, 13), 100);
    for n in 0..12 {
        let mut tree = large();
        let mut yielded = drain(&mut tree, between(3, 13), n);
        assert_eq!(yielded.len(), n.min(11));
        yielded.extend(drain(&mut tree, between(3, 13), 100));
        yielded.sort();
        assert_eq!(yielded, all);
        assert_eq!(held(&tree), held(&whole));
    }
}

#[test]
fn a_visitor_and_a_drain_that_choose_the_same_agree() {
    let choices: [fn(i32) -> bool; 4] = [|_| false, |_| true, |x| x % 3 == 0, |x| x > 11];
    for choice in choices {
        let mut one = large();
        let mut other = large();
        let drained = drain(&mut one, Select(choice), 100);
        let mut visitor = RemoveSelected { function: Select(choice) };
        let removed = other.drain_with_backtracking_visitor(&mut visitor);
        assert_eq!(removed, drained.len());
        assert_eq!(one.size(), other.size());
        assert_eq!(held(&one), held(&other));
        assert_eq!(one.root().envelope, other.root().envelope);
    }
}

#[test]
fn what_is_unpacked_is_revisited() {
    let visitor = RemoveSelected { function: between(0, 4) };
    for x in 0..8 {
        let envelope = AABB::from_corners([x, 0], [9, 0]);
        assert_eq!(
            BacktrackingDrainVisitor::<Point>::should_revisit_parent(&visitor, &envelope),
            x <= 4,
        );
        assert!(visitor.should_revisit_leaf(&[x, 0]));
    }
}

#[test]
fn what_is_left_keeps_its_depth_and_its_siblings() {
    for n in 0..19 {
        let mut tree = large();
        let yielded = drain(&mut tree, Select(|x| x % 3 != 1), n);
        for x in 0..18 {
            if !yielded.contains(&x) {
                let mut expected: Vec<i32> = Vec::new();
                for y in 3 * (x / 3)..3 * (x / 3) + 3 {
                    if !yielded.contains(&y) {
                        expected.push(y);
                    }
                }
                assert_eq!(siblings(tree.root(), 3, x), expected);
            }
        }
        assert_tight(tree.root());
    }
}

#[test]
fn a_drop_after_the_last_object_leaves_an_empty_tree() {
    let mut tree = large();
    assert_eq!(drain(&mut tree, Select(|_| true), 18).len(), 18);
    assert_eq!(text(tree.root()), "()");
    assert_eq!(tree.root().envelope, AABB::new_empty());
    assert_eq!(tree.size(), 0);
}

#[test]
fn envelopes_stay_tight_where_subtrees_are_empty() {
    let with_empty = || {
        tree(vec![node(vec![]), leaves(&[1, 9]), node(vec![node(vec![]), leaf(3)]), leaf(5)])
    };
    for n in 0..5 {
        let mut tree = with_empty();
        drain(&mut tree, Select(|x| x != 9), n);
        assert_tight(tree.root());
    }
    let mut tree = with_empty();
    let mut visitor = RemoveSelected { function: Select(|x| x == 9) };
    assert_eq!(tree.drain_with_backtracking_visitor(&mut visitor), 1);
    assert_eq!(text(tree.root()), "(5 (1) (3))");
    assert_tight(tree.root());
}

/// A visitor that notes its visits and answers by `answer`.
struct Noting<F> {
    visits: Vec<(i32, VisitLeafControl)>,
    answer: F,
}

impl<F: Fn(i32, usize) -> VisitLeafControl> BacktrackingDrainVisitor<Point> for Noting<F> {
    fn should_unpack_parent(&self, _: &AABB<Point>) -> bool {
        true
    }

    fn visit_leaf(&mut self, leaf: &Point) -> VisitLeafControl {
        let control = (self.answer)(leaf[0], self.visits.len());
        self.visits.push((leaf[0], control));
        control
    }
}

fn removes(control: VisitLeafControl) -> bool {
    control == VisitLeafControl::Remove || control == VisitLeafControl::RemoveAndRevisit
}

#[test]
fn what_was_there_is_what_is_left_and_what_was_taken() {
    for stop in 0..40 {
        let mut tree = large();
        let mut visitor = Noting {
            visits: Vec::new(),
            answer: |x: i32, n: usize| {
                if n == stop {
                    VisitLeafControl::Stop
                } else if x % 7 == 3 {
                    VisitLeafControl::RemoveAndRevisit
                } else if x % 2 == 0 && n > 9 {
                    VisitLeafControl::Remove
                } else {
                    VisitLeafControl::Keep
                }
            },
        };
        let removed = tree.drain_with_backtracking_visitor(&mut visitor);
        let mut all = held(&tree);
        let mut taken = 0;
        for (x, control) in &visitor.visits {
            if removes(*control) {
                all.push(*x);
                taken += 1;
            }
        }
        all.sort();
        assert_eq!(all, (0..18).collect::<Vec<i32>>());
        assert_eq!(removed, taken);
        assert_tight(tree.root());
        let stopped = visitor.visits.iter().position(|v| v.1 == VisitLeafControl::Stop);
        assert!(stopped.is_none() || stopped == Some(visitor.visits.len() - 1));
    }
}

#[test]
fn all_that_is_left_was_seen_since_the_last_return() {
    for last in 0..18 {
        let mut tree = large();
        let mut visitor = Noting {
            visits: Vec::new(),
            answer: |x: i32, _: usize| {
                if x == last || x % 5 == 4 {
                    VisitLeafControl::RemoveAndRevisit
                } else {
                    VisitLeafControl::Keep
                }
            },
        };
        tree.drain_with_backtracking_visitor(&mut visitor);
        let mut since: Vec<i32> = Vec::new();
        for (x, control) in &visitor.visits {
            if *control == VisitLeafControl::RemoveAndRevisit {
                since.clear();
            } else if *control == VisitLeafControl::Keep {
                since.push(*x);
            }
        }
        for x in held(&tree) {
            assert!(since.contains(&x));
        }
    }
}

/// A visitor that declines every revisit, notes its visits and unpacks the boxes that reach `from`.
struct Declining<F> {
    from: i32,
    visits: Vec<i32>,
    answer: F,
}

impl<F: Fn(i32) -> VisitLeafControl> BacktrackingDrainVisitor<Point> for Declining<F> {
    fn should_unpack_parent(&self, envelope: &AABB<Point>) -> bool {
        envelope.intersects(&AABB::from_corners([self.from, 0], [99, 0]))
    }

    fn visit_leaf(&mut self, leaf: &Point) -> VisitLeafControl {
        self.visits.push(leaf[0]);
        (self.answer)(leaf[0])
    }

    fn should_revisit_parent(&self, _: &AABB<Point>) -> bool {
        false
    }

    fn should_revisit_leaf(&self, _: &Point) -> bool {
        false
    }
}

#[test]
fn a_visitor_that_declines_revisits_visits_each_leaf_once() {
    for from in 0..18 {
        let mut tree = large();
        let mut visitor = Declining {
            from,
            visits: Vec::new(),
            answer: |x: i32| {
                if x % 2 == 0 {
                    VisitLeafControl::RemoveAndRevisit
                } else {
                    VisitLeafControl::Keep
                }
            },
        };
        tree.drain_with_backtracking_visitor(&mut visitor);
        visitor.visits.sort();
        assert_eq!(visitor.visits, (3 * (from / 3)..18).collect::<Vec<i32>>());
    }
}

#[test]
fn a_visitor_that_declines_revisits_and_stops_visits_no_leaf_twice() {
    for stop in 0..18 {
        let mut tree = large();
        let mut visitor = Declining {
            from: 0,
            visits: Vec::new(),
            answer: |x: i32| {
                if x == stop {
                    VisitLeafControl::Stop
                } else {
                    VisitLeafControl::RemoveAndRevisit
                }
            },
        };
        tree.drain_with_backtracking_visitor(&mut visitor);
        let n = visitor.visits.len();
        assert_eq!(visitor.visits[n - 1], stop);
        visitor.visits.sort();
        visitor.visits.dedup();
        assert_eq!(visitor.visits.len(), n);
        assert!(held(&tree).contains(&stop));
    }
}

#[test]
fn a_visitor_by_choice_visits_each_leaf_once() {
    for modulus in 1..5 {
        let mut tree = large();
        let mut visitor = Noting {
            visits: Vec::new(),
            answer: |x: i32, _: usize| {
                if x % modulus == 0 {
                    VisitLeafControl::Remove
                } else {
                    VisitLeafControl::Keep
                }
            },
        };
        tree.drain_with_backtracking_visitor(&mut visitor);
        let mut visits: Vec<i32> = visitor.visits.iter().map(|v| v.0).collect();
        visits.sort();
        assert_eq!(visits, (0..18).collect::<Vec<i32>>());
    }
}

/// Selects the multiples of five, and unpacks a box if it reaches over one, or is the box of a
/// single point.
struct Fives;

impl SelectionFunction<Point> for Fives {
    fn should_unpack_parent(&self, envelope: &AABB<Point>) -> bool {
        (0..20).any(|x| *envelope == AABB::from_corners([x, 0], [x, 0]))
            || (0..4).any(|i| envelope.intersects(&AABB::from_corners([5 * i, 0], [5 * i, 0])))
    }

    fn should_unpack_leaf(&self, leaf: &Point) -> bool {
        leaf[0] % 5 == 0
    }
}

#[test]
fn a_drain_of_loose_envelopes_may_be_resumed() {
    let loose = || {
        let mut wide = ParentNode::new_parent(vec![leaf(4), leaf(5), leaf(6)]);
        wide.envelope = AABB::from_corners([0, 0], [9, 0]);
        tree(vec![RTreeNode::Parent(wide), leaves(&[7, 10, 15]), leaves(&[11, 12]), leaf(0)])
    };
    let mut whole = loose();
    let all = drain(&mut whole, Fives, 100);
    assert_eq!(all, vec![0, 5, 10, 15]);
    for n in 0..6 {
        let mut tree = loose();
        let mut yielded = drain(&mut tree, Fives, n);
        yielded.extend(drain(&mut tree, Fives, 100));
        yielded.sort();
        assert_eq!(yielded, all);
        assert_eq!(held(&tree), held(&whole));
    }
}

/// An envelope that remembers the order in which objects were merged in.
#[derive(Clone, Debug, PartialEq)]
struct Order(Vec<i32>);

impl Envelope for Order {
    fn nothing() -> Self {
        Order(Vec::new())
    }

    fn join(mut self, other: Self) -> Self {
        self.merge(&other);
        self
    }

    fn meets(self, _: Self) -> bool {
        true
    }

    fn new_empty() -> Self {
        Order(Vec::new())
    }

    fn merge(&mut self, other: &Self) {
        self.0.extend(other.0.iter());
    }

    fn intersects(&self, _: &Self) -> bool {
        true
    }
}

#[derive(Clone, Debug, PartialEq)]
struct Numbered(i32);

impl RTreeObject for Numbered {
    type Envelope = Order;

    fn bounds(self) -> Order {
        self.envelope()
    }

    fn envelope(&self) -> Order {
        Order(vec![self.0])
    }
}

struct Odd;

impl SelectionFunction<Numbered> for Odd {
    fn should_unpack_parent(&self, _: &Order) -> bool {
        true
    }

    fn should_unpack_leaf(&self, leaf: &Numbered) -> bool {
        leaf.0 % 2 == 1
    }
}

fn in_order(parent: &ParentNode<Numbered>) {
    assert_eq!(parent.envelope, envelope_for_children(&parent.children));
    for child in &parent.children {
        if let RTreeNode::Parent(parent) = child {
            in_order(parent);
        }
    }
}

#[test]
fn a_tidy_tree_stays_tidy_whatever_the_envelope() {
    for n in 0..8 {
        let pair = |x: i32| {
            RTreeNode::Parent(ParentNode::new_parent(vec![
                RTreeNode::Leaf(Numbered(x)),
                RTreeNode::Leaf(Numbered(x + 1)),
                RTreeNode::Leaf(Numbered(x + 2)),
            ]))
        };
        let mut tree: RTree<Numbered> =
            RTree::from_root(ParentNode::new_parent(vec![pair(0), pair(4), pair(8), pair(12)]));
        let mut iter = tree.drain_with_selection_function(Odd);
        for _ in 0..n {
            iter.next();
        }
        iter.drop();
        in_order(tree.root());
        assert_eq!(tree.size(), 12 - n.min(4));
    }
}
