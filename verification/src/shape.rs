//! Where what is left of a tree stands.

use crate::model::{
    leaves_of, lemma_leaf_at, lemma_leaf_counts, lemma_leaves_swap_remove, swap_removed, Branch,
    Node,
};
use crate::object::RTreeObject;
use vstd::prelude::*;

verus! {

/// Where what is left of a node comes from.
pub enum Origin {
    /// It is an object.
    Object,
    /// It is a subtree: the position that each child had, and where what is left of it comes from.
    Subtree { from: Seq<int>, below: Seq<Origin> },
}

impl Origin {
    /// Whether each child of `after` and of each subtree below it comes from another one of
    /// `before` and of the subtree that it comes from, as this says.
    pub open spec fn traces<T: RTreeObject>(self, after: Node<T>, before: Node<T>) -> bool
        decreases self,
    {
        match (after, before) {
            (Node::Leaf(object), Node::Leaf(other)) => object == other,
            (Node::Parent(branch), Node::Parent(other)) => match self {
                Origin::Object => false,
                Origin::Subtree { from, below } => {
                    &&& from.len() == branch.children.len()
                    &&& below.len() == branch.children.len()
                    &&& from.no_duplicates()
                    &&& forall|i: int|
                        0 <= i < from.len() ==> 0 <= #[trigger] from[i] < other.children.len()
                    &&& forall|i: int|
                        0 <= i < below.len() ==> (#[trigger] below[i]).traces(
                            branch.children[i],
                            other.children[from[i]],
                        )
                },
            },
            _ => false,
        }
    }
}

/// Whether `after` is what is left of `before` when objects and subtrees are taken out and the
/// others stay below their parent, in any order.
pub open spec fn is_left_of<T: RTreeObject>(after: Node<T>, before: Node<T>) -> bool {
    exists|origin: Origin| #[trigger] origin.traces(after, before)
}

/// Whether each node of `after` is what is left of another one of `before`: of the one at the
/// position that `from` gives.
spec fn stems_from<T: RTreeObject>(
    after: Seq<Node<T>>,
    before: Seq<Node<T>>,
    from: Seq<int>,
) -> bool {
    &&& from.len() == after.len()
    &&& from.no_duplicates()
    &&& forall|i: int| 0 <= i < after.len() ==> 0 <= #[trigger] from[i] < before.len()
    &&& forall|i: int|
        0 <= i < after.len() ==> is_left_of(#[trigger] after[i], before[from[i]])
}

/// What is left of a subtree is what is left of its children, each below it as before.
proof fn lemma_stems<T: RTreeObject>(after: Branch<T>, before: Branch<T>, from: Seq<int>)
    requires
        stems_from(after.children, before.children, from),
    ensures
        after.is_left_of(before),
{
    let below = Seq::new(
        from.len(),
        |i: int|
            choose|origin: Origin| #[trigger]
                origin.traces(after.children[i], before.children[from[i]]),
    );
    let origin = Origin::Subtree { from, below };
    assert(origin.traces(Node::Parent(after), Node::Parent(before)));
}

/// The same the other way round.
proof fn lemma_stem<T: RTreeObject>(after: Branch<T>, before: Branch<T>) -> (from: Seq<int>)
    requires
        after.is_left_of(before),
    ensures
        stems_from(after.children, before.children, from),
{
    let origin = choose|origin: Origin| #[trigger]
        origin.traces(Node::Parent(after), Node::Parent(before));
    let from = origin->from;
    let below = origin->below;
    assert forall|i: int| 0 <= i < after.children.len() implies is_left_of(
        #[trigger] after.children[i],
        before.children[from[i]],
    ) by {
        assert(below[i].traces(after.children[i], before.children[from[i]]));
    }
    from
}

impl<T: RTreeObject> Branch<T> {
    /// Whether this node is what is left of `before`, with what is below each subtree still below
    /// it.
    pub open spec fn is_left_of(self, before: Self) -> bool {
        is_left_of(Node::Parent(self), Node::Parent(before))
    }
}

/// The positions of `n` nodes.
spec fn places(n: nat) -> Seq<int> {
    Seq::new(n, |i: int| i)
}

pub proof fn lemma_left_of_itself<T: RTreeObject>(node: Node<T>)
    ensures
        is_left_of(node, node),
    decreases node,
{
    if let Node::Leaf(_) = node {
        assert(Origin::Object.traces(node, node));
    }
    if let Node::Parent(branch) = node {
        let children = branch.children;
        assert forall|i: int| 0 <= i < children.len() implies is_left_of(
            #[trigger] children[i],
            children[places(children.len())[i]],
        ) by {
            lemma_left_of_itself(children[i]);
        }
        lemma_stems(branch, branch, places(children.len()));
    }
}

pub proof fn lemma_left_of_left<T: RTreeObject>(a: Node<T>, b: Node<T>, c: Node<T>)
    requires
        is_left_of(a, b),
        is_left_of(b, c),
    ensures
        is_left_of(a, c),
    decreases a,
{
    if let (Node::Parent(x), Node::Parent(y), Node::Parent(z)) = (a, b, c) {
        let first = lemma_stem(x, y);
        let second = lemma_stem(y, z);
        let both = Seq::new(first.len(), |i: int| second[first[i]]);
        assert forall|i: int| 0 <= i < both.len() implies 0 <= #[trigger] both[i]
            < z.children.len() && is_left_of(x.children[i], z.children[both[i]]) by {
            let j = first[i];
            lemma_left_of_left(x.children[i], y.children[j], z.children[second[j]]);
        }
        lemma_stems(x, z, both);
    }
}

/// The same of subtrees.
pub proof fn lemma_branch_left_of_left<T: RTreeObject>(a: Branch<T>, b: Branch<T>, c: Branch<T>)
    requires
        a.is_left_of(b),
        b.is_left_of(c),
    ensures
        a.is_left_of(c),
{
    lemma_left_of_left(Node::Parent(a), Node::Parent(b), Node::Parent(c));
}

/// What is left depends on no envelope.
pub proof fn lemma_left_of_same<T: RTreeObject>(after: Branch<T>, before: Branch<T>)
    requires
        after.children == before.children,
    ensures
        after.is_left_of(before),
{
    lemma_left_of_itself(Node::Parent(before));
    let from = lemma_stem(before, before);
    lemma_stems(after, before, from);
}

pub proof fn lemma_left_of_without<T: RTreeObject>(after: Branch<T>, before: Branch<T>, i: int)
    requires
        0 <= i < before.children.len(),
        after.children == swap_removed(before.children, i),
    ensures
        after.is_left_of(before),
{
    let from = swap_removed(places(before.children.len()), i);
    assert forall|j: int| 0 <= j < after.children.len() implies is_left_of(
        #[trigger] after.children[j],
        before.children[from[j]],
    ) by {
        lemma_left_of_itself(after.children[j]);
    }
    lemma_stems(after, before, from);
}

pub proof fn lemma_left_of_with<T: RTreeObject>(
    after: Branch<T>,
    before: Branch<T>,
    i: int,
    child: Node<T>,
)
    requires
        0 <= i < before.children.len(),
        after.children == before.children.update(i, child),
        is_left_of(child, before.children[i]),
    ensures
        after.is_left_of(before),
{
    let from = places(before.children.len());
    assert forall|j: int| 0 <= j < after.children.len() implies is_left_of(
        #[trigger] after.children[j],
        before.children[from[j]],
    ) by {
        if j != i {
            lemma_left_of_itself(before.children[j]);
        }
    }
    lemma_stems(after, before, from);
}

/// A change of place of a child and the last one.
pub proof fn lemma_left_of_swapped<T: RTreeObject>(after: Branch<T>, before: Branch<T>, i: int)
    requires
        0 <= i < before.children.len(),
        after.children == before.children.update(i, before.children.last()).update(
            before.children.len() - 1,
            before.children[i],
        ),
    ensures
        after.is_left_of(before),
{
    let n = before.children.len();
    let from = places(n).update(i, n - 1).update(n - 1, i);
    assert forall|j: int| 0 <= j < after.children.len() implies is_left_of(
        #[trigger] after.children[j],
        before.children[from[j]],
    ) by {
        lemma_left_of_itself(after.children[j]);
    }
    lemma_stems(after, before, from);
}

impl<T: RTreeObject> Node<T> {
    /// Whether all objects at or below this node are `depth` levels below it.
    pub open spec fn is_level(self, depth: nat) -> bool
        decreases self,
    {
        match self {
            Node::Leaf(_) => depth == 0,
            Node::Parent(branch) => {
                &&& depth > 0
                &&& forall|i: int|
                    0 <= i < branch.children.len() ==> (#[trigger] branch.children[i]).is_level(
                        (depth - 1) as nat,
                    )
            },
        }
    }
}

/// What is left stands at the depth where it stood.
pub proof fn law_what_is_left_keeps_its_depth<T: RTreeObject>(
    after: Node<T>,
    before: Node<T>,
    depth: nat,
)
    requires
        is_left_of(after, before),
        before.is_level(depth),
    ensures
        after.is_level(depth),
    decreases after,
{
    if let (Node::Parent(branch), Node::Parent(other)) = (after, before) {
        let from = lemma_stem(branch, other);
        assert forall|i: int| 0 <= i < branch.children.len() implies (
        #[trigger] branch.children[i]).is_level((depth - 1) as nat) by {
            law_what_is_left_keeps_its_depth(
                branch.children[i],
                other.children[from[i]],
                (depth - 1) as nat,
            );
        }
    }
}

/// Whether `x` and `y` are children of the same subtree, or both among `nodes`.
pub open spec fn are_siblings<T: RTreeObject>(nodes: Seq<Node<T>>, x: T, y: T) -> bool
    decreases nodes,
{
    ||| exists|i: int, j: int|
        0 <= i < nodes.len() && 0 <= j < nodes.len() && i != j && #[trigger] nodes[i]
            == Node::Leaf(x) && #[trigger] nodes[j] == Node::Leaf(y)
    ||| exists|i: int| 0 <= i < nodes.len() && has_siblings(#[trigger] nodes[i], x, y)
}

/// Whether `x` and `y` are children of the same subtree at or below `node`.
pub open spec fn has_siblings<T: RTreeObject>(node: Node<T>, x: T, y: T) -> bool
    decreases node,
{
    match node {
        Node::Leaf(_) => false,
        Node::Parent(branch) => are_siblings(branch.children, x, y),
    }
}

/// An object that is held once is at or below one node only.
proof fn lemma_leaf_once<T: RTreeObject>(nodes: Seq<Node<T>>, i: int, j: int, x: T)
    requires
        leaves_of(nodes).count(x) == 1,
        0 <= i < nodes.len(),
        0 <= j < nodes.len(),
        nodes[i].leaves().count(x) > 0,
        nodes[j].leaves().count(x) > 0,
    ensures
        i == j,
{
    if i != j {
        let rest = swap_removed(nodes, i);
        lemma_leaves_swap_remove(nodes, i);
        let k = if j == nodes.len() - 1 {
            i
        } else {
            j
        };
        lemma_leaf_counts(rest, k, x);
    }
}

/// What is left holds no other objects.
pub proof fn law_what_is_left_was_there<T: RTreeObject>(after: Node<T>, before: Node<T>)
    requires
        is_left_of(after, before),
    ensures
        after.leaves().subset_of(before.leaves()),
    decreases after, 0nat, 0nat,
{
    if let (Node::Parent(branch), Node::Parent(other)) = (after, before) {
        let from = lemma_stem(branch, other);
        lemma_stems_were_there(branch.children, other.children, from);
    }
}

proof fn lemma_stems_were_there<T: RTreeObject>(
    after: Seq<Node<T>>,
    before: Seq<Node<T>>,
    from: Seq<int>,
)
    requires
        stems_from(after, before, from),
    ensures
        leaves_of(after).subset_of(leaves_of(before)),
    decreases after, after.len(), 1nat,
{
    if after.len() > 0 {
        let last = from.last();
        law_what_is_left_was_there(after.last(), before[last]);
        let rest = swap_removed(before, last);
        lemma_leaves_swap_remove(before, last);
        let front = after.drop_last();
        let places = Seq::new(
            front.len(),
            |i: int|
                if from[i] == before.len() - 1 {
                    last
                } else {
                    from[i]
                },
        );
        lemma_stems_were_there(front, rest, places);
    }
}

/// Objects that were siblings are still siblings, where both are left and each was held once.
pub proof fn law_siblings_that_are_left_stay_together<T: RTreeObject>(
    after: Branch<T>,
    before: Branch<T>,
    x: T,
    y: T,
)
    requires
        after.is_left_of(before),
        are_siblings(before.children, x, y),
        before.leaves().count(x) == 1,
        before.leaves().count(y) == 1,
        after.leaves().count(x) > 0,
        after.leaves().count(y) > 0,
    ensures
        are_siblings(after.children, x, y),
    decreases after,
{
    let from = lemma_stem(after, before);
    let i = lemma_leaf_at(after.children, x);
    let j = lemma_leaf_at(after.children, y);
    let u = before.children[from[i]];
    let v = before.children[from[j]];
    law_what_is_left_was_there(after.children[i], u);
    law_what_is_left_was_there(after.children[j], v);
    if exists|k: int, l: int|
        0 <= k < before.children.len() && 0 <= l < before.children.len() && k != l
            && #[trigger] before.children[k] == Node::Leaf(x) && #[trigger] before.children[l]
            == Node::Leaf(y) {
        let (k, l) = choose|k: int, l: int|
            0 <= k < before.children.len() && 0 <= l < before.children.len() && k != l
                && #[trigger] before.children[k] == Node::Leaf(x) && #[trigger] before.children[l]
                == Node::Leaf(y);
        lemma_leaf_once(before.children, from[i], k, x);
        lemma_leaf_once(before.children, from[j], l, y);
    } else {
        let k = choose|k: int|
            0 <= k < before.children.len() && has_siblings(
                #[trigger] before.children[k],
                x,
                y,
            );
        let below = before.children[k]->Parent_0;
        lemma_siblings_are_leaves(below.children, x, y);
        lemma_leaf_once(before.children, from[i], k, x);
        lemma_leaf_once(before.children, from[j], k, y);
        lemma_leaf_counts(before.children, k, x);
        lemma_leaf_counts(before.children, k, y);
        let left = after.children[i]->Parent_0;
        law_siblings_that_are_left_stay_together(left, below, x, y);
    }
}

proof fn lemma_siblings_are_leaves<T: RTreeObject>(nodes: Seq<Node<T>>, x: T, y: T)
    requires
        are_siblings(nodes, x, y),
    ensures
        leaves_of(nodes).count(x) > 0,
        leaves_of(nodes).count(y) > 0,
    decreases nodes,
{
    if exists|i: int, j: int|
        0 <= i < nodes.len() && 0 <= j < nodes.len() && i != j && #[trigger] nodes[i]
            == Node::Leaf(x) && #[trigger] nodes[j] == Node::Leaf(y) {
        let (i, j) = choose|i: int, j: int|
            0 <= i < nodes.len() && 0 <= j < nodes.len() && i != j && #[trigger] nodes[i]
                == Node::Leaf(x) && #[trigger] nodes[j] == Node::Leaf(y);
        lemma_leaf_counts(nodes, i, x);
        lemma_leaf_counts(nodes, j, y);
    } else {
        let i = choose|i: int| 0 <= i < nodes.len() && has_siblings(#[trigger] nodes[i], x, y);
        if let Node::Parent(branch) = nodes[i] {
            lemma_siblings_are_leaves(branch.children, x, y);
        }
        lemma_leaf_counts(nodes, i, x);
        lemma_leaf_counts(nodes, i, y);
    }
}

/// Whether `after` is what is left of `before`, with what is left at the depth where it stood and
/// siblings still together.
pub open spec fn keeps_its_shape<T: RTreeObject>(after: Branch<T>, before: Branch<T>) -> bool {
    &&& after.is_left_of(before)
    &&& forall|depth: nat| #[trigger]
        Node::Parent(before).is_level(depth) ==> Node::Parent(after).is_level(depth)
    &&& forall|x: T, y: T| #[trigger]
        are_siblings(before.children, x, y) && before.leaves().count(x) == 1
            && before.leaves().count(y) == 1 && after.leaves().count(x) > 0
            && after.leaves().count(y) > 0 ==> are_siblings(after.children, x, y)
}

pub proof fn lemma_keeps_its_shape<T: RTreeObject>(after: Branch<T>, before: Branch<T>)
    requires
        after.is_left_of(before),
    ensures
        keeps_its_shape(after, before),
{
    assert forall|depth: nat| #[trigger] Node::Parent(before).is_level(depth) implies Node::Parent(
        after,
    ).is_level(depth) by {
        law_what_is_left_keeps_its_depth(Node::Parent(after), Node::Parent(before), depth);
    }
    assert forall|x: T, y: T| #[trigger]
        are_siblings(before.children, x, y) && before.leaves().count(x) == 1
            && before.leaves().count(y) == 1 && after.leaves().count(x) > 0
            && after.leaves().count(y) > 0 implies are_siblings(after.children, x, y) by {
        law_siblings_that_are_left_stay_together(after, before, x, y);
    }
}

} // verus!
