//! What a visitor's traversal of a tree does, step by step.

use crate::model::{
    envelope_of, lemma_leaves_swap_remove, lemma_leaves_update, lemma_weight_swap_remove,
    lemma_weight_update, weight_of, Branch, Node,
};
use crate::object::RTreeObject;
use crate::visitor::{BacktrackingDrainVisitor, VisitLeafControl};
use vstd::prelude::*;

verus! {

/// Whether `visitor` may answer `answer` when asked if it wants `node` revisited.
pub open spec fn revisits<T: RTreeObject, V: BacktrackingDrainVisitor<T>>(
    visitor: V,
    node: Node<T>,
    answer: bool,
) -> bool {
    match node {
        Node::Leaf(leaf) => call_ensures(V::should_revisit_leaf, (&visitor, &leaf), answer),
        Node::Parent(branch) => call_ensures(
            V::should_revisit_parent,
            (&visitor, &branch.envelope),
            answer,
        ),
    }
}

/// Whether `found` is the position of the first of the leading `end` nodes that `visitor` wants
/// revisited, `None` if there is none.
pub open spec fn first_revisited<T: RTreeObject, V: BacktrackingDrainVisitor<T>>(
    visitor: V,
    nodes: Seq<Node<T>>,
    end: int,
    found: Option<int>,
) -> bool {
    match found {
        Some(i) => {
            &&& 0 <= i < end
            &&& i < nodes.len()
            &&& revisits(visitor, nodes[i], true)
            &&& forall|j: int| 0 <= j < i ==> revisits(visitor, #[trigger] nodes[j], false)
        },
        None => forall|j: int|
            0 <= j < end && j < nodes.len() ==> revisits(visitor, #[trigger] nodes[j], false),
    }
}

/// A traversal of the children of one node, between two of them.
#[verifier::ext_equal]
pub struct Walk<T: RTreeObject, V> {
    /// The node as it is now.
    pub node: Branch<T>,
    /// The position of the child that is next.
    pub next: int,
    /// How many leaves below the node were removed.
    pub removed: nat,
    /// Whether a removal asked to go back.
    pub revisit: bool,
    /// The visitor as it is now.
    pub visitor: V,
}

/// What a traversal of the children of one node leaves behind.
#[verifier::ext_equal]
pub struct Walked<T: RTreeObject, V> {
    pub node: Branch<T>,
    pub removed: nat,
    pub revisit: bool,
    /// Whether the visitor stopped the traversal.
    pub stopped: bool,
    pub visitor: V,
}

/// How a traversal goes on.
#[verifier::ext_equal]
pub enum Move<T: RTreeObject, V> {
    Go(Walk<T, V>),
    End(Walked<T, V>),
}

impl<T: RTreeObject, V> Walk<T, V> {
    /// A traversal that has not visited anything.
    pub open spec fn begin(node: Branch<T>, visitor: V) -> Self {
        Walk { node, next: 0, removed: 0, revisit: false, visitor }
    }

    /// What is left behind when the traversal ends here.
    pub open spec fn ended(self, stopped: bool) -> Walked<T, V> {
        Walked {
            node: self.node.settled(self.removed),
            removed: self.removed,
            revisit: self.revisit,
            stopped,
            visitor: self.visitor,
        }
    }
}

/// Whether a traversal goes on with the first of the leading `end` children that is to be
/// revisited, or as `walk` says if there is none.
pub open spec fn goes_back<T: RTreeObject, V: BacktrackingDrainVisitor<T>>(
    walk: Walk<T, V>,
    end: int,
    next: Move<T, V>,
) -> bool {
    exists|found: Option<int>| #[trigger]
        first_revisited(walk.visitor, walk.node.children, end, found) && next == Move::Go(
            match found {
                Some(i) => Walk { next: i, ..walk },
                None => walk,
            },
        )
}

/// How a traversal goes on after a visit of the leaf that was next, which was answered with
/// `control` and left `visitor` behind.
pub open spec fn after_leaf<T: RTreeObject, V: BacktrackingDrainVisitor<T>>(
    walk: Walk<T, V>,
    control: VisitLeafControl,
    visitor: V,
    next: Move<T, V>,
) -> bool {
    let taken = Walk {
        node: walk.node.without_child(walk.next),
        removed: walk.removed + 1,
        visitor,
        ..walk
    };
    match control {
        VisitLeafControl::Keep => next == Move::Go(Walk { next: walk.next + 1, visitor, ..walk }),
        VisitLeafControl::Remove => next == Move::Go(taken),
        VisitLeafControl::RemoveAndRevisit => goes_back(
            Walk { revisit: true, ..taken },
            walk.next,
            next,
        ),
        VisitLeafControl::Stop => next == Move::<T, V>::End(
            Walk { visitor, ..walk }.ended(true),
        ),
    }
}

/// Whether a traversal goes on from `walk`, where `leaf` is next, with `next`.
pub open spec fn visits_leaf<T: RTreeObject, V: BacktrackingDrainVisitor<T>>(
    walk: Walk<T, V>,
    leaf: T,
    next: Move<T, V>,
) -> bool {
    exists|control: VisitLeafControl, visitor: V| #[trigger]
        V::visited(walk.visitor, leaf, control, visitor) && after_leaf(
            walk,
            control,
            visitor,
            next,
        )
}

/// How a traversal goes on after a traversal of the child that was next, which left `below`
/// behind.
pub open spec fn after_child<T: RTreeObject, V: BacktrackingDrainVisitor<T>>(
    walk: Walk<T, V>,
    below: Walked<T, V>,
    next: Move<T, V>,
) -> bool {
    let back = Walk {
        node: walk.node.with_child(walk.next, Node::Parent(below.node)),
        next: walk.next,
        removed: walk.removed + below.removed,
        revisit: walk.revisit || below.revisit,
        visitor: below.visitor,
    };
    let past = if below.node.children.len() == 0 {
        Walk { node: back.node.without_child(walk.next), ..back }
    } else {
        Walk { next: walk.next + 1, ..back }
    };
    if below.stopped {
        next == Move::End(back.ended(true))
    } else if below.revisit {
        goes_back(past, walk.next, next)
    } else {
        next == Move::Go(past)
    }
}

/// Whether a traversal goes on from `walk` with `next`, where `below` is what a traversal of the
/// child that was next left behind, if there was one.
pub open spec fn moves<T: RTreeObject, V: BacktrackingDrainVisitor<T>>(
    walk: Walk<T, V>,
    below: Option<Walked<T, V>>,
    next: Move<T, V>,
) -> bool {
    if walk.next >= walk.node.children.len() {
        below is None && next == Move::End(walk.ended(false))
    } else {
        match walk.node.children[walk.next] {
            Node::Leaf(leaf) => below is None && visits_leaf(walk, leaf, next),
            Node::Parent(child) => match below {
                None => call_ensures(
                    V::should_unpack_parent,
                    (&walk.visitor, &child.envelope),
                    false,
                ) && next == Move::Go(Walk { next: walk.next + 1, ..walk }),
                Some(below) => call_ensures(
                    V::should_unpack_parent,
                    (&walk.visitor, &child.envelope),
                    true,
                ) && after_child(walk, below, next),
            },
        }
    }
}

/// The moves of a traversal.
pub enum Trail<T: RTreeObject, V> {
    /// No move is left.
    Over,
    /// A move that visits a leaf, passes over a subtree or finds no child left.
    Visit { next: Move<T, V>, rest: Box<Trail<T, V>> },
    /// A move through a subtree, in which `trail` comes to `below`.
    Descend {
        trail: Box<Trail<T, V>>,
        below: Walked<T, V>,
        next: Move<T, V>,
        rest: Box<Trail<T, V>>,
    },
}

impl<T: RTreeObject, V: BacktrackingDrainVisitor<T>> Trail<T, V> {
    /// Whether this trail comes from `start` to `end`.
    pub open spec fn joins(self, start: Move<T, V>, end: Walked<T, V>) -> bool
        decreases self,
    {
        match start {
            Move::End(over) => over == end,
            Move::Go(walk) => match self {
                Trail::Over => false,
                Trail::Visit { next, rest } => moves(walk, None, next) && rest.joins(next, end),
                Trail::Descend { trail, below, next, rest } => {
                    &&& 0 <= walk.next < walk.node.children.len()
                    &&& walk.node.children[walk.next] matches Node::Parent(child)
                    &&& trail.joins(Move::Go(Walk::begin(child, walk.visitor)), below)
                    &&& moves(walk, Some(below), next)
                    &&& rest.joins(next, end)
                },
            },
        }
    }
}

/// Whether a traversal comes from `start` to `end`.
pub open spec fn leads_to<T: RTreeObject, V: BacktrackingDrainVisitor<T>>(
    start: Move<T, V>,
    end: Walked<T, V>,
) -> bool {
    exists|trail: Trail<T, V>| #[trigger] trail.joins(start, end)
}

/// Whether a traversal of the children of `node` with `visitor` may come to `end`.
pub open spec fn traverses<T: RTreeObject, V: BacktrackingDrainVisitor<T>>(
    node: Branch<T>,
    visitor: V,
    end: Walked<T, V>,
) -> bool {
    leads_to(Move::Go(Walk::begin(node, visitor)), end)
}

/// A traversal that has ended is at its end.
pub proof fn lemma_ended<T: RTreeObject, V: BacktrackingDrainVisitor<T>>(end: Walked<T, V>)
    ensures
        leads_to(Move::End(end), end),
{
    assert(Trail::Over.joins(Move::End(end), end));
}

/// A traversal may be taken one move at a time: moves that do not go through a subtree.
pub proof fn lemma_visit<T: RTreeObject, V: BacktrackingDrainVisitor<T>>(
    walk: Walk<T, V>,
    next: Move<T, V>,
)
    requires
        moves(walk, None, next),
    ensures
        forall|end: Walked<T, V>| #[trigger]
            leads_to(next, end) ==> leads_to(Move::Go(walk), end),
        next matches Move::End(end) ==> leads_to(Move::Go(walk), end),
{
    if let Move::End(end) = next {
        lemma_ended(end);
    }
    assert forall|end: Walked<T, V>| #[trigger] leads_to(next, end) implies leads_to(
        Move::Go(walk),
        end,
    ) by {
        let rest = choose|trail: Trail<T, V>| #[trigger] trail.joins(next, end);
        let trail = Trail::Visit { next, rest: Box::new(rest) };
        assert(trail.joins(Move::Go(walk), end));
    }
}

/// The same of a visit of a leaf.
pub proof fn lemma_visit_leaf<T: RTreeObject, V: BacktrackingDrainVisitor<T>>(
    walk: Walk<T, V>,
    leaf: T,
    control: VisitLeafControl,
    visitor: V,
    next: Move<T, V>,
)
    requires
        0 <= walk.next < walk.node.children.len(),
        walk.node.children[walk.next] == Node::Leaf(leaf),
        V::visited(walk.visitor, leaf, control, visitor),
        after_leaf(walk, control, visitor, next),
    ensures
        moves(walk, None, next),
        forall|end: Walked<T, V>| #[trigger]
            leads_to(next, end) ==> leads_to(Move::Go(walk), end),
        next matches Move::End(end) ==> leads_to(Move::Go(walk), end),
{
    lemma_visit(walk, next);
}

/// The same of a move through a subtree.
pub proof fn lemma_descend<T: RTreeObject, V: BacktrackingDrainVisitor<T>>(
    walk: Walk<T, V>,
    child: Branch<T>,
    below: Walked<T, V>,
    next: Move<T, V>,
)
    requires
        0 <= walk.next < walk.node.children.len(),
        walk.node.children[walk.next] == Node::Parent(child),
        traverses(child, walk.visitor, below),
        moves(walk, Some(below), next),
    ensures
        forall|end: Walked<T, V>| #[trigger]
            leads_to(next, end) ==> leads_to(Move::Go(walk), end),
        next matches Move::End(end) ==> leads_to(Move::Go(walk), end),
{
    if let Move::End(end) = next {
        lemma_ended(end);
    }
    let begin = Move::Go(Walk::begin(child, walk.visitor));
    let trail = choose|trail: Trail<T, V>| #[trigger] trail.joins(begin, below);
    assert forall|end: Walked<T, V>| #[trigger] leads_to(next, end) implies leads_to(
        Move::Go(walk),
        end,
    ) by {
        let rest = choose|trail: Trail<T, V>| #[trigger] trail.joins(next, end);
        let whole = Trail::Descend { trail: Box::new(trail), below, next, rest: Box::new(rest) };
        assert(whole.joins(Move::Go(walk), end));
    }
}

/// Whether `after` is what is left of `before` when `removed` leaves are taken out.
pub open spec fn is_rest_of<T: RTreeObject>(
    after: Branch<T>,
    before: Branch<T>,
    removed: int,
) -> bool {
    &&& after.leaves().subset_of(before.leaves())
    &&& after.leaves().len() + removed == before.leaves().len()
    &&& weight_of(after.children) <= weight_of(before.children)
}

/// Whether `below` can be what a traversal leaves behind of the child that is next.
pub open spec fn fits_below<T: RTreeObject, V>(walk: Walk<T, V>, below: Walked<T, V>) -> bool {
    match walk.node.children[walk.next] {
        Node::Leaf(_) => true,
        Node::Parent(child) => {
            &&& is_rest_of(below.node, child, below.removed as int)
            &&& below.revisit ==> below.removed > 0 && weight_of(below.node.children) < weight_of(
                child.children,
            )
        },
    }
}

/// Without a child a node has fewer leaves by those of the child.
pub proof fn lemma_without_child<T: RTreeObject>(node: Branch<T>, i: int)
    requires
        0 <= i < node.children.len(),
    ensures
        is_rest_of(node.without_child(i), node, node.children[i].leaves().len() as int),
        weight_of(node.without_child(i).children) < weight_of(node.children),
        node.without_child(i).children.len() == node.children.len() - 1,
{
    lemma_leaves_swap_remove(node.children, i);
    lemma_weight_swap_remove(node.children, i);
}

/// A node has fewer leaves by those that a child has fewer.
pub proof fn lemma_with_child<T: RTreeObject>(
    node: Branch<T>,
    i: int,
    child: Branch<T>,
    rest: Branch<T>,
    removed: int,
)
    requires
        0 <= i < node.children.len(),
        node.children[i] == Node::Parent(child),
        is_rest_of(rest, child, removed),
    ensures
        is_rest_of(node.with_child(i, Node::Parent(rest)), node, removed),
        weight_of(node.with_child(i, Node::Parent(rest)).children) + weight_of(child.children)
            == weight_of(node.children) + weight_of(rest.children),
{
    let after = node.with_child(i, Node::Parent(rest));
    lemma_leaves_update(node.children, i, Node::Parent(rest));
    lemma_weight_update(node.children, i, Node::Parent(rest));
    let both = after.leaves().add(child.leaves());
    assert forall|t: T| after.leaves().count(t) <= node.leaves().count(t) by {
        assert(both.count(t) == after.leaves().count(t) + child.leaves().count(t));
    }
    assert(both.len() == after.leaves().len() + child.leaves().len());
}

/// A move takes out as many leaves as it says. It leaves less to be traversed.
pub proof fn lemma_move<T: RTreeObject, V: BacktrackingDrainVisitor<T>>(
    walk: Walk<T, V>,
    below: Option<Walked<T, V>>,
    next: Move<T, V>,
)
    requires
        moves(walk, below, next),
        0 <= walk.next <= walk.node.children.len(),
        below matches Some(b) ==> fits_below(walk, b),
    ensures
        match next {
            Move::Go(then) => {
                &&& 0 <= then.next <= then.node.children.len()
                &&& is_rest_of(then.node, walk.node, then.removed - walk.removed)
                &&& then.removed >= walk.removed
                &&& then.revisit && !walk.revisit ==> then.removed > walk.removed
                &&& {
                    ||| weight_of(then.node.children) < weight_of(walk.node.children)
                    ||| {
                        &&& then.revisit == walk.revisit
                        &&& weight_of(then.node.children) == weight_of(walk.node.children)
                        &&& then.node.children.len() - then.next < walk.node.children.len()
                            - walk.next
                    }
                }
            },
            Move::End(then) => {
                &&& is_rest_of(then.node, walk.node, then.removed - walk.removed)
                &&& then.removed >= walk.removed
                &&& then.revisit && !walk.revisit ==> then.removed > walk.removed && weight_of(
                    then.node.children,
                ) < weight_of(walk.node.children)
            },
        },
{
    if walk.next < walk.node.children.len() {
        match walk.node.children[walk.next] {
            Node::Leaf(leaf) => {
                lemma_without_child(walk.node, walk.next);
            },
            Node::Parent(child) => {
                if let Some(below) = below {
                    lemma_with_child(walk.node, walk.next, child, below.node, below.removed as int);
                    let back = walk.node.with_child(walk.next, Node::Parent(below.node));
                    lemma_without_child(back, walk.next);
                }
            },
        }
    }
}

/// A traversal takes out as many leaves as it says, and nothing else.
pub proof fn lemma_trail<T: RTreeObject, V: BacktrackingDrainVisitor<T>>(
    trail: Trail<T, V>,
    walk: Walk<T, V>,
    end: Walked<T, V>,
)
    requires
        trail.joins(Move::Go(walk), end),
        0 <= walk.next <= walk.node.children.len(),
    ensures
        is_rest_of(end.node, walk.node, end.removed - walk.removed),
        end.removed >= walk.removed,
        end.revisit && !walk.revisit ==> end.removed > walk.removed && weight_of(
            end.node.children,
        ) < weight_of(walk.node.children),
    decreases trail,
{
    match trail {
        Trail::Over => {},
        Trail::Visit { next, rest } => {
            assert(rest.joins(next, end));
            lemma_move(walk, None, next);
            if let Move::Go(then) = next {
                lemma_trail(*rest, then, end);
            }
        },
        Trail::Descend { trail, below, next, rest } => {
            if let Node::Parent(child) = walk.node.children[walk.next] {
                lemma_trail(*trail, Walk::begin(child, walk.visitor), below);
            }
            assert(rest.joins(next, end));
            lemma_move(walk, Some(below), next);
            if let Move::Go(then) = next {
                lemma_trail(*rest, then, end);
            }
        },
    }
}

/// The same of a traversal from the beginning.
pub proof fn lemma_traverses<T: RTreeObject, V: BacktrackingDrainVisitor<T>>(
    node: Branch<T>,
    visitor: V,
    end: Walked<T, V>,
)
    requires
        traverses(node, visitor, end),
    ensures
        is_rest_of(end.node, node, end.removed as int),
        end.revisit ==> end.removed > 0 && weight_of(end.node.children) < weight_of(
            node.children,
        ),
{
    let begin = Walk::begin(node, visitor);
    let trail = choose|trail: Trail<T, V>| #[trigger] trail.joins(Move::Go(begin), end);
    lemma_trail(trail, begin, end);
}

proof fn lemma_trail_is_settled<T: RTreeObject, V: BacktrackingDrainVisitor<T>>(
    trail: Trail<T, V>,
    start: Move<T, V>,
    end: Walked<T, V>,
)
    requires
        trail.joins(start, end),
        start is Go,
    ensures
        end.removed > 0 ==> end.node.envelope == envelope_of(end.node.children),
    decreases trail,
{
    match trail {
        Trail::Over => {},
        Trail::Visit { next, rest } => {
            assert(rest.joins(next, end));
            if next is Go {
                lemma_trail_is_settled(*rest, next, end);
            }
        },
        Trail::Descend { trail, below, next, rest } => {
            assert(rest.joins(next, end));
            if next is Go {
                lemma_trail_is_settled(*rest, next, end);
            }
        },
    }
}

/// A traversal that removed anything leaves a node with the envelope around its children.
pub proof fn lemma_traversal_is_settled<T: RTreeObject, V: BacktrackingDrainVisitor<T>>(
    node: Branch<T>,
    visitor: V,
    end: Walked<T, V>,
)
    requires
        traverses(node, visitor, end),
    ensures
        end.removed > 0 ==> end.node.envelope == envelope_of(end.node.children),
{
    let begin = Move::Go(Walk::begin(node, visitor));
    let trail = choose|trail: Trail<T, V>| #[trigger] trail.joins(begin, end);
    lemma_trail_is_settled(trail, begin, end);
}

/// Whether a drain of `before` with `visitor` may remove `removed` leaves and leave `after` and
/// `left` behind.
pub open spec fn drains<T: RTreeObject, V: BacktrackingDrainVisitor<T>>(
    before: Branch<T>,
    visitor: V,
    removed: nat,
    after: Branch<T>,
    left: V,
) -> bool {
    if before.children.len() == 0 {
        removed == 0 && after == before && left == visitor
    } else {
        ||| {
            &&& call_ensures(V::should_unpack_parent, (&visitor, &before.envelope), false)
            &&& removed == 0 && after == before && left == visitor
        }
        ||| {
            &&& call_ensures(V::should_unpack_parent, (&visitor, &before.envelope), true)
            &&& exists|end: Walked<T, V>| #[trigger]
                traverses(before, visitor, end) && end.removed == removed && end.node == after
                    && end.visitor == left
        }
    }
}

/// A removal is a traversal from the root, or none.
pub proof fn lemma_drains<T: RTreeObject, V: BacktrackingDrainVisitor<T>>(
    before: Branch<T>,
    visitor: V,
    removed: nat,
    after: Branch<T>,
    left: V,
) -> (end: Option<Walked<T, V>>)
    requires
        drains(before, visitor, removed, after, left),
    ensures
        match end {
            Some(end) => {
                &&& before.children.len() > 0
                &&& call_ensures(V::should_unpack_parent, (&visitor, &before.envelope), true)
                &&& traverses(before, visitor, end)
                &&& end.removed == removed && end.node == after && end.visitor == left
            },
            None => {
                &&& before.children.len() == 0 || call_ensures(
                    V::should_unpack_parent,
                    (&visitor, &before.envelope),
                    false,
                )
                &&& removed == 0 && after == before && left == visitor
            },
        },
{
    if before.children.len() > 0 && call_ensures(
        V::should_unpack_parent,
        (&visitor, &before.envelope),
        true,
    ) && exists|end: Walked<T, V>| #[trigger]
        traverses(before, visitor, end) && end.removed == removed && end.node == after
            && end.visitor == left {
        Some(
            choose|end: Walked<T, V>| #[trigger]
                traverses(before, visitor, end) && end.removed == removed && end.node == after
                    && end.visitor == left,
        )
    } else {
        None
    }
}

} // verus!
