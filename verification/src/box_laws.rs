//! What holds of trees of points in the plane.

use crate::aabb::{
    law_box_of_a_point, law_boxes_keep_what_they_contain, law_boxes_meet_in_a_point,
    law_boxes_merge_freely, law_join_is_the_smallest_box_around_both, AABB,
};
use crate::drain_laws::{
    law_finish_removes_only_what_was_yielded, law_remove_finds_one_if_there_is_any, yields,
};
use crate::drain_steps::{advances, collapsed, start, Frame, Step};
use crate::drain_tidy_laws::{law_drop_keeps_the_tree_tight, law_finish_keeps_the_tree_tight};
use crate::model::{all_tight, envelope_of, leaves_of, Branch, Node};
use crate::object::Envelope;
use crate::selection::{SelectInEnvelopeFuncIntersecting, SelectionFunction};
use crate::selection_laws::{
    is_enclosed, law_all_chosen_objects_are_reached, law_drain_takes_all_chosen,
    law_enclosed_tree_is_covered, law_selection_in_envelope, meeting,
};
use crate::traversal::drains;
use crate::visitor::BacktrackingDrainVisitor;
use crate::visitor_laws::law_visitor_keeps_the_tree_tight;
use vstd::multiset::Multiset;
use vstd::prelude::*;

verus! {

/// Whether the box contains all of `points` and each of its four bounds is that of one of them. If
/// there are none, whether it contains no point at all.
pub open(crate) spec fn is_around(aabb: AABB<[i32; 2]>, points: Multiset<[i32; 2]>) -> bool {
    &&& forall|point: [i32; 2]| #[trigger] points.count(point) > 0 ==> aabb.holds(point)
    &&& points.len() == 0 ==> !aabb.is_inhabited()
    &&& points.len() > 0 ==> {
        &&& exists|point: [i32; 2]| #[trigger] points.count(point) > 0 && point[0] == aabb.lower[0]
        &&& exists|point: [i32; 2]| #[trigger] points.count(point) > 0 && point[1] == aabb.lower[1]
        &&& exists|point: [i32; 2]| #[trigger] points.count(point) > 0 && point[0] == aabb.upper[0]
        &&& exists|point: [i32; 2]| #[trigger] points.count(point) > 0 && point[1] == aabb.upper[1]
    }
}

/// A box around points is enclosed by each box that contains them all.
pub proof fn law_box_around_points_is_the_smallest(
    aabb: AABB<[i32; 2]>,
    points: Multiset<[i32; 2]>,
    other: AABB<[i32; 2]>,
)
    requires
        is_around(aabb, points),
        forall|point: [i32; 2]| #[trigger] points.count(point) > 0 ==> other.holds(point),
    ensures
        other.encloses(aabb),
{
}

/// The join of boxes around points is the box around all of them.
proof fn lemma_around_both(
    a: AABB<[i32; 2]>,
    first: Multiset<[i32; 2]>,
    b: AABB<[i32; 2]>,
    second: Multiset<[i32; 2]>,
)
    requires
        a == AABB::<[i32; 2]>::nothing() && first.len() == 0 || first.len() > 0 && is_around(
            a,
            first,
        ),
        b == AABB::<[i32; 2]>::nothing() && second.len() == 0 || second.len() > 0 && is_around(
            b,
            second,
        ),
    ensures
        first.add(second).len() == 0 ==> a.join(b) == AABB::<[i32; 2]>::nothing(),
        first.add(second).len() > 0 ==> is_around(a.join(b), first.add(second)),
{
    let both = first.add(second);
    law_boxes_merge_freely();
    law_join_is_the_smallest_box_around_both(a, b);
    if first.len() == 0 {
        assert(both =~= second);
    } else if second.len() == 0 {
        assert(both =~= first);
    } else {
        lemma_bounds(a, first, both);
        lemma_bounds(b, second, both);
    }
}

/// The points that a box around some points takes its bounds from are among more points too.
proof fn lemma_bounds(
    aabb: AABB<[i32; 2]>,
    points: Multiset<[i32; 2]>,
    more: Multiset<[i32; 2]>,
)
    requires
        points.len() > 0,
        is_around(aabb, points),
        points.subset_of(more),
    ensures
        exists|point: [i32; 2]| #[trigger] more.count(point) > 0 && point[0] == aabb.lower[0],
        exists|point: [i32; 2]| #[trigger] more.count(point) > 0 && point[1] == aabb.lower[1],
        exists|point: [i32; 2]| #[trigger] more.count(point) > 0 && point[0] == aabb.upper[0],
        exists|point: [i32; 2]| #[trigger] more.count(point) > 0 && point[1] == aabb.upper[1],
{
}

proof fn lemma_tight_node(node: Node<[i32; 2]>)
    requires
        node.is_tight(),
    ensures
        node.leaves().len() == 0 ==> node.envelope() == AABB::<[i32; 2]>::nothing(),
        node.leaves().len() > 0 ==> is_around(node.envelope(), node.leaves()),
    decreases node, 0nat,
{
    match node {
        Node::Leaf(point) => {
            law_box_of_a_point(point);
        },
        Node::Parent(branch) => {
            lemma_tight_nodes(branch.children);
        },
    }
}

proof fn lemma_tight_nodes(nodes: Seq<Node<[i32; 2]>>)
    requires
        all_tight(nodes),
    ensures
        leaves_of(nodes).len() == 0 ==> envelope_of(nodes) == AABB::<[i32; 2]>::nothing(),
        leaves_of(nodes).len() > 0 ==> is_around(envelope_of(nodes), leaves_of(nodes)),
    decreases nodes, nodes.len(),
{
    if nodes.len() > 0 {
        let front = nodes.drop_last();
        lemma_tight_nodes(front);
        lemma_tight_node(nodes.last());
        lemma_around_both(
            envelope_of(front),
            leaves_of(front),
            nodes.last().envelope(),
            nodes.last().leaves(),
        );
    }
}

/// Whether each subtree at or below `node` records the box around the points below it.
pub open spec fn has_boxes_around(node: Node<[i32; 2]>) -> bool
    decreases node,
{
    match node {
        Node::Leaf(_) => true,
        Node::Parent(branch) => {
            &&& is_around(branch.envelope, branch.leaves())
            &&& forall|i: int|
                0 <= i < branch.children.len() ==> has_boxes_around(#[trigger] branch.children[i])
        },
    }
}

/// Where each node has the envelope around its children, it records the box around the points below
/// it.
pub proof fn law_tight_tree_has_boxes_around(node: Node<[i32; 2]>)
    requires
        node.is_tight(),
    ensures
        has_boxes_around(node),
    decreases node,
{
    if let Node::Parent(branch) = node {
        lemma_tight_node(node);
        law_join_is_the_smallest_box_around_both(branch.envelope, branch.envelope);
        assert forall|i: int| 0 <= i < branch.children.len() implies has_boxes_around(
            #[trigger] branch.children[i],
        ) by {
            law_tight_tree_has_boxes_around(branch.children[i]);
        }
    }
}

/// A visitor's removal leaves each node with the box around the points that are left below it.
pub proof fn law_visitor_leaves_boxes_around<V: BacktrackingDrainVisitor<[i32; 2]>>(
    before: Branch<[i32; 2]>,
    visitor: V,
    removed: nat,
    after: Branch<[i32; 2]>,
    left: V,
)
    requires
        before.is_tight(),
        drains(before, visitor, removed, after, left),
    ensures
        has_boxes_around(Node::Parent(after)),
{
    law_boxes_merge_freely();
    law_visitor_keeps_the_tree_tight(before, visitor, removed, after, left);
    law_tight_tree_has_boxes_around(Node::Parent(after));
}

/// A drain leaves each node with the box around the points that are left below it: when the
/// iterator is dropped, at any point.
pub proof fn law_drop_leaves_boxes_around<R: SelectionFunction<[i32; 2]>>(
    function: R,
    root: Branch<[i32; 2]>,
    objects: Seq<[i32; 2]>,
    then: Seq<Frame<[i32; 2]>>,
)
    requires
        root.is_tight(),
        yields(function, start(root), objects, then),
    ensures
        has_boxes_around(Node::Parent(collapsed(then).0)),
{
    law_boxes_merge_freely();
    law_drop_keeps_the_tree_tight(function, root, objects, then);
    law_tight_tree_has_boxes_around(Node::Parent(collapsed(then).0));
}

/// The same of a drain to the end.
pub proof fn law_finish_leaves_boxes_around<R: SelectionFunction<[i32; 2]>>(
    function: R,
    root: Branch<[i32; 2]>,
    objects: Seq<[i32; 2]>,
    then: Seq<Frame<[i32; 2]>>,
    after: Branch<[i32; 2]>,
    removed: nat,
)
    requires
        root.is_tight(),
        yields(function, start(root), objects, then),
        advances(function, then, Step::Finish(after, removed)),
    ensures
        has_boxes_around(Node::Parent(after)),
{
    law_boxes_merge_freely();
    law_finish_keeps_the_tree_tight(function, root, objects, then, after, removed);
    law_tight_tree_has_boxes_around(Node::Parent(after));
}

/// Whether each subtree at or below `node` records a box that contains the points below it.
pub open spec fn has_boxes_that_hold(node: Node<[i32; 2]>) -> bool {
    is_enclosed(|aabb: AABB<[i32; 2]>, point: [i32; 2]| aabb.holds(point), node)
}

/// A drain in a region to the end yields exactly the points in the region, each as often as the
/// tree holds it, and leaves exactly the others.
pub proof fn law_drain_in_a_region(
    function: SelectInEnvelopeFuncIntersecting<[i32; 2]>,
    region: AABB<[i32; 2]>,
    root: Branch<[i32; 2]>,
    objects: Seq<[i32; 2]>,
    then: Seq<Frame<[i32; 2]>>,
    after: Branch<[i32; 2]>,
    removed: nat,
)
    requires
        function.region() == region,
        has_boxes_that_hold(Node::Parent(root)),
        yields(function, start(root), objects, then),
        advances(function, then, Step::Finish(after, removed)),
    ensures
        forall|point: [i32; 2]|
            #![trigger objects.to_multiset().count(point)]
            objects.to_multiset().count(point) == if region.holds(point) {
                root.leaves().count(point)
            } else {
                0
            },
        forall|point: [i32; 2]|
            #![trigger after.leaves().count(point)]
            after.leaves().count(point) == if region.holds(point) {
                0
            } else {
                root.leaves().count(point)
            },
{
    let choice = meeting(region);
    law_boxes_keep_what_they_contain(region);
    law_boxes_meet_in_a_point(region, region);
    law_selection_in_envelope(function, root);
    law_enclosed_tree_is_covered(
        choice,
        |aabb: AABB<[i32; 2]>, point: [i32; 2]| aabb.holds(point),
        Node::Parent(root),
    );
    law_drain_takes_all_chosen(choice, function, root, objects, then, after, removed);
    law_finish_removes_only_what_was_yielded(function, root, objects, then, after, removed);
    assert forall|point: [i32; 2]| #[trigger] after.leaves().count(point) == if region.holds(
        point,
    ) {
        0
    } else {
        root.leaves().count(point)
    } by {
        assert(after.leaves().add(objects.to_multiset()).count(point) == root.leaves().count(
            point,
        ));
    }
}

/// A removal of one point in a region removes a point of the tree that is in the region, and no
/// other. It finds none only if no point of the tree is in the region.
pub proof fn law_remove_in_a_region(
    function: SelectInEnvelopeFuncIntersecting<[i32; 2]>,
    region: AABB<[i32; 2]>,
    root: Branch<[i32; 2]>,
    end: Step<[i32; 2]>,
)
    requires
        function.region() == region,
        has_boxes_that_hold(Node::Parent(root)),
        advances(function, start(root), end),
    ensures
        match end {
            Step::Move(_) => false,
            Step::Yield(object, then) => {
                &&& region.holds(object)
                &&& collapsed(then).0.leaves().insert(object) == root.leaves()
                &&& collapsed(then).1 == 1
            },
            Step::Finish(after, removed) => {
                &&& forall|point: [i32; 2]| #[trigger]
                    root.leaves().count(point) > 0 ==> !region.holds(point)
                &&& after.leaves() == root.leaves()
                &&& removed == 0
            },
        },
{
    let choice = meeting(region);
    law_boxes_keep_what_they_contain(region);
    law_boxes_meet_in_a_point(region, region);
    law_selection_in_envelope(function, root);
    law_enclosed_tree_is_covered(
        choice,
        |aabb: AABB<[i32; 2]>, point: [i32; 2]| aabb.holds(point),
        Node::Parent(root),
    );
    law_all_chosen_objects_are_reached(choice, root);
    law_remove_finds_one_if_there_is_any(choice, function, root, end);
    let chosen = choice.among(Node::Parent(root));
    if let Step::Finish(_, _) = end {
        assert forall|point: [i32; 2]| #[trigger]
            root.leaves().count(point) > 0 implies !region.holds(point) by {
            assert(chosen.count(point) == 0);
        }
    }
}

} // verus!
