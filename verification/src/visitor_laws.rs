//! What holds of every removal that a visitor steers.

use crate::model::{
    all_tidy, all_tight, lemma_envelope_same, lemma_envelope_swap_remove, lemma_leaves_swap_remove,
    lemma_leaves_update, Branch, Choice, Node,
};
use crate::object::{merges_freely, RTreeObject};
use crate::traversal::{
    after_leaf, drains, lemma_drains, lemma_traverses, moves, revisits, traverses, Move, Trail,
    Walk, Walked,
};
use crate::visitor::{BacktrackingDrainVisitor, VisitLeafControl};
use vstd::multiset::Multiset;
use vstd::prelude::*;

verus! {

/// Whether the answer takes the visited leaf out of the tree.
pub open spec fn removes(control: VisitLeafControl) -> bool {
    control is Remove || control is RemoveAndRevisit
}

/// Whether `holds` is true of a visitor after each visit if it was true of it before.
pub open spec fn is_kept<T: RTreeObject, V: BacktrackingDrainVisitor<T>>(
    holds: spec_fn(V) -> bool,
) -> bool {
    forall|before: V, leaf: T, control: VisitLeafControl, after: V| #[trigger]
        V::visited(before, leaf, control, after) && holds(before) ==> holds(after)
}

/// Whether a visitor that `holds` is true of can choose to remove `leaf`.
pub open spec fn can_remove<T: RTreeObject, V: BacktrackingDrainVisitor<T>>(
    holds: spec_fn(V) -> bool,
    leaf: T,
) -> bool {
    exists|before: V, control: VisitLeafControl, after: V| #[trigger]
        V::visited(before, leaf, control, after) && holds(before) && removes(control)
}

/// Whether each leaf of `before` that is missing from `after` was one that a visitor that `holds`
/// is true of can choose to remove.
pub open spec fn misses_only_removable<T: RTreeObject, V: BacktrackingDrainVisitor<T>>(
    holds: spec_fn(V) -> bool,
    before: Multiset<T>,
    after: Multiset<T>,
) -> bool {
    forall|leaf: T| #[trigger]
        after.count(leaf) < before.count(leaf) ==> can_remove(holds, leaf)
}

proof fn lemma_misses_taken<T: RTreeObject, V: BacktrackingDrainVisitor<T>>(
    holds: spec_fn(V) -> bool,
    node: Branch<T>,
    i: int,
    leaf: T,
)
    requires
        0 <= i < node.children.len(),
        node.children[i] == Node::Leaf(leaf),
        can_remove(holds, leaf),
    ensures
        misses_only_removable(holds, node.leaves(), node.without_child(i).leaves()),
{
    lemma_leaves_swap_remove(node.children, i);
}

proof fn lemma_misses_below<T: RTreeObject, V: BacktrackingDrainVisitor<T>>(
    holds: spec_fn(V) -> bool,
    node: Branch<T>,
    i: int,
    child: Branch<T>,
    below: Branch<T>,
)
    requires
        0 <= i < node.children.len(),
        node.children[i] == Node::Parent(child),
        misses_only_removable(holds, child.leaves(), below.leaves()),
    ensures
        misses_only_removable(
            holds,
            node.leaves(),
            node.with_child(i, Node::Parent(below)).leaves(),
        ),
        below.children.len() == 0 ==> misses_only_removable(
            holds,
            node.leaves(),
            node.with_child(i, Node::Parent(below)).without_child(i).leaves(),
        ),
{
    let after = node.with_child(i, Node::Parent(below));
    lemma_leaves_update(node.children, i, Node::Parent(below));
    let both = after.leaves().add(child.leaves());
    assert forall|leaf: T| #[trigger]
        after.leaves().count(leaf) < node.leaves().count(leaf) implies can_remove(
        holds,
        leaf,
    ) by {
        assert(both.count(leaf) == after.leaves().count(leaf) + child.leaves().count(leaf));
    }
    lemma_leaves_swap_remove(after.children, i);
    if below.children.len() == 0 {
        assert(after.without_child(i).leaves() =~= after.leaves());
    }
}

proof fn lemma_misses_move<T: RTreeObject, V: BacktrackingDrainVisitor<T>>(
    holds: spec_fn(V) -> bool,
    walk: Walk<T, V>,
    below: Option<Walked<T, V>>,
    next: Move<T, V>,
)
    requires
        is_kept::<T, V>(holds),
        holds(walk.visitor),
        moves(walk, below, next),
        0 <= walk.next <= walk.node.children.len(),
        below matches Some(b) ==> match walk.node.children[walk.next] {
            Node::Leaf(_) => true,
            Node::Parent(child) => {
                &&& holds(b.visitor)
                &&& misses_only_removable(holds, child.leaves(), b.node.leaves())
            },
        },
    ensures
        match next {
            Move::Go(then) => {
                &&& holds(then.visitor)
                &&& 0 <= then.next <= then.node.children.len()
                &&& misses_only_removable(holds, walk.node.leaves(), then.node.leaves())
            },
            Move::End(then) => {
                &&& holds(then.visitor)
                &&& misses_only_removable(holds, walk.node.leaves(), then.node.leaves())
            },
        },
{
    if walk.next < walk.node.children.len() {
        match walk.node.children[walk.next] {
            Node::Leaf(leaf) => {
                if can_remove(holds, leaf) {
                    lemma_misses_taken(holds, walk.node, walk.next, leaf);
                }
            },
            Node::Parent(child) => {
                if let Some(below) = below {
                    lemma_misses_below(holds, walk.node, walk.next, child, below.node);
                }
            },
        }
    }
}

proof fn lemma_misses<T: RTreeObject, V: BacktrackingDrainVisitor<T>>(
    holds: spec_fn(V) -> bool,
    trail: Trail<T, V>,
    walk: Walk<T, V>,
    end: Walked<T, V>,
)
    requires
        is_kept::<T, V>(holds),
        holds(walk.visitor),
        trail.joins(Move::Go(walk), end),
        0 <= walk.next <= walk.node.children.len(),
    ensures
        holds(end.visitor),
        misses_only_removable(holds, walk.node.leaves(), end.node.leaves()),
    decreases trail,
{
    match trail {
        Trail::Over => {},
        Trail::Visit { next, rest } => {
            assert(rest.joins(next, end));
            lemma_misses_move(holds, walk, None, next);
            if let Move::Go(then) = next {
                lemma_misses(holds, *rest, then, end);
            }
        },
        Trail::Descend { trail, below, next, rest } => {
            assert(rest.joins(next, end));
            if let Node::Parent(child) = walk.node.children[walk.next] {
                lemma_misses(holds, *trail, Walk::begin(child, walk.visitor), below);
            }
            lemma_misses_move(holds, walk, Some(below), next);
            if let Move::Go(then) = next {
                lemma_misses(holds, *rest, then, end);
            }
        },
    }
}

/// A removal takes out as many leaves as it says, all of them leaves that the visitor can answer to
/// remove. The others stay. What each visit keeps true of the visitor is true of it in the end.
pub proof fn law_removes_only_what_was_chosen<T: RTreeObject, V: BacktrackingDrainVisitor<T>>(
    holds: spec_fn(V) -> bool,
    before: Branch<T>,
    visitor: V,
    removed: nat,
    after: Branch<T>,
    left: V,
)
    requires
        is_kept::<T, V>(holds),
        holds(visitor),
        drains(before, visitor, removed, after, left),
    ensures
        after.leaves().subset_of(before.leaves()),
        after.leaves().len() + removed == before.leaves().len(),
        misses_only_removable(holds, before.leaves(), after.leaves()),
        holds(left),
{
    if let Some(end) = lemma_drains(before, visitor, removed, after, left) {
        lemma_traverses(before, visitor, end);
        let begin = Walk::begin(before, visitor);
        let trail = choose|trail: Trail<T, V>| #[trigger] trail.joins(Move::Go(begin), end);
        lemma_misses(holds, trail, begin, end);
    }
}

/// Whether the last thing that the visitor of `end` did was to stop at a leaf, which is still in
/// the tree.
pub open spec fn stopped_at_kept_leaf<T: RTreeObject, V: BacktrackingDrainVisitor<T>>(
    end: Walked<T, V>,
) -> bool {
    exists|before: V, leaf: T| #[trigger]
        V::visited(before, leaf, VisitLeafControl::Stop, end.visitor) && end.node.leaves().count(
            leaf,
        ) > 0
}

proof fn lemma_stops<T: RTreeObject, V: BacktrackingDrainVisitor<T>>(
    trail: Trail<T, V>,
    walk: Walk<T, V>,
    end: Walked<T, V>,
)
    requires
        trail.joins(Move::Go(walk), end),
        0 <= walk.next <= walk.node.children.len(),
        end.stopped,
    ensures
        stopped_at_kept_leaf(end),
    decreases trail,
{
    match trail {
        Trail::Over => {},
        Trail::Visit { next, rest } => {
            assert(rest.joins(next, end));
            lemma_move_stays_in_place(walk, None, next);
            match next {
                Move::Go(then) => {
                    lemma_stops(*rest, then, end);
                },
                Move::End(_) => {
                    if let Node::Leaf(leaf) = walk.node.children[walk.next] {
                        let (control, visitor) = choose|control: VisitLeafControl, visitor: V|
                            #[trigger]
                            V::visited(walk.visitor, leaf, control, visitor) && after_leaf(
                                walk,
                                control,
                                visitor,
                                next,
                            );
                        assert(control is Stop && visitor == end.visitor);
                        lemma_leaves_swap_remove(walk.node.children, walk.next);
                    }
                },
            }
        },
        Trail::Descend { trail, below, next, rest } => {
            assert(rest.joins(next, end));
            lemma_move_stays_in_place(walk, Some(below), next);
            match next {
                Move::Go(then) => {
                    lemma_stops(*rest, then, end);
                },
                Move::End(_) => {
                    if let Node::Parent(child) = walk.node.children[walk.next] {
                        lemma_stops(*trail, Walk::begin(child, walk.visitor), below);
                        let back = walk.node.with_child(walk.next, Node::Parent(below.node));
                        lemma_leaves_swap_remove(back.children, walk.next);
                        let (v, leaf) = choose|v: V, leaf: T| #[trigger]
                            V::visited(v, leaf, VisitLeafControl::Stop, below.visitor)
                                && below.node.leaves().count(leaf) > 0;
                        assert(V::visited(v, leaf, VisitLeafControl::Stop, end.visitor));
                    }
                },
            }
        },
    }
}

proof fn lemma_move_stays_in_place<T: RTreeObject, V: BacktrackingDrainVisitor<T>>(
    walk: Walk<T, V>,
    below: Option<Walked<T, V>>,
    next: Move<T, V>,
)
    requires
        moves(walk, below, next),
        0 <= walk.next <= walk.node.children.len(),
    ensures
        next matches Move::Go(then) ==> 0 <= then.next <= then.node.children.len(),
{
}

/// A traversal that was stopped made no visit after the one that stopped it, and the leaf visited
/// there is still in the tree.
pub proof fn law_stop_keeps_the_leaf_and_is_the_last_visit<
    T: RTreeObject,
    V: BacktrackingDrainVisitor<T>,
>(node: Branch<T>, visitor: V, end: Walked<T, V>)
    requires
        traverses(node, visitor, end),
        end.stopped,
    ensures
        stopped_at_kept_leaf(end),
{
    let begin = Walk::begin(node, visitor);
    let trail = choose|trail: Trail<T, V>| #[trigger] trail.joins(Move::Go(begin), end);
    lemma_stops(trail, begin, end);
}

/// A traversal goes back only after a removal, and only to a child that the visitor wants
/// revisited.
pub proof fn law_goes_back_only_after_a_removal<T: RTreeObject, V: BacktrackingDrainVisitor<T>>(
    walk: Walk<T, V>,
    below: Option<Walked<T, V>>,
    then: Walk<T, V>,
)
    requires
        0 <= walk.next <= walk.node.children.len(),
        moves(walk, below, Move::Go(then)),
        below matches Some(end) ==> match walk.node.children[walk.next] {
            Node::Leaf(_) => true,
            Node::Parent(child) => traverses(child, walk.visitor, end),
        },
        then.next < walk.next,
    ensures
        then.removed > walk.removed,
        0 <= then.next < then.node.children.len(),
        revisits(then.visitor, then.node.children[then.next], true),
{
    if let Some(end) = below {
        if let Node::Parent(child) = walk.node.children[walk.next] {
            lemma_traverses(child, walk.visitor, end);
        }
    }
}

/// A traversal never goes back with a visitor that wants nothing revisited.
pub proof fn law_never_goes_back_uncalled<T: RTreeObject, V: BacktrackingDrainVisitor<T>>(
    walk: Walk<T, V>,
    below: Option<Walked<T, V>>,
    then: Walk<T, V>,
)
    requires
        0 <= walk.next <= walk.node.children.len(),
        moves(walk, below, Move::Go(then)),
        forall|node: Node<T>| !#[trigger] revisits(then.visitor, node, true),
    ensures
        then.next >= walk.next,
{
    if then.next < walk.next {
        assert(revisits(then.visitor, then.node.children[then.next], true));
    }
}

/// Whether the children are tidy and, unless something was removed, so is the node.
spec fn walks_tidy<T: RTreeObject, V>(walk: Walk<T, V>) -> bool {
    &&& 0 <= walk.next <= walk.node.children.len()
    &&& all_tidy(walk.node.children)
    &&& walk.removed == 0 ==> walk.node.is_tidy()
}

/// Whether `end` is tidy and, unless something was removed since `removed`, the node is `node`.
spec fn ends_tidy<T: RTreeObject, V>(end: Walked<T, V>, node: Branch<T>, removed: nat) -> bool {
    &&& end.node.is_tidy()
    &&& end.removed >= removed
    &&& end.removed == removed ==> end.node.children == node.children
    &&& end.removed == 0 ==> end.node == node
    &&& end.stopped ==> end.node.children.len() > 0
}

proof fn lemma_tidy_move<T: RTreeObject, V: BacktrackingDrainVisitor<T>>(
    walk: Walk<T, V>,
    below: Option<Walked<T, V>>,
    next: Move<T, V>,
)
    requires
        moves(walk, below, next),
        walks_tidy(walk),
        below matches Some(b) ==> match walk.node.children[walk.next] {
            Node::Leaf(_) => true,
            Node::Parent(child) => ends_tidy(b, child, 0),
        },
    ensures
        match next {
            Move::Go(then) => {
                &&& walks_tidy(then)
                &&& then.removed >= walk.removed
                &&& then.removed == walk.removed ==> then.node == walk.node
            },
            Move::End(end) => ends_tidy(end, walk.node, walk.removed),
        },
{
    if walk.next < walk.node.children.len() {
        if let Node::Parent(child) = walk.node.children[walk.next] {
            if let Some(below) = below {
                let back = walk.node.with_child(walk.next, Node::Parent(below.node));
                if below.removed == 0 {
                    assert(back.children =~= walk.node.children);
                }
            }
        }
    }
}

proof fn lemma_tidy<T: RTreeObject, V: BacktrackingDrainVisitor<T>>(
    trail: Trail<T, V>,
    walk: Walk<T, V>,
    end: Walked<T, V>,
)
    requires
        trail.joins(Move::Go(walk), end),
        walks_tidy(walk),
    ensures
        ends_tidy(end, walk.node, walk.removed),
    decreases trail,
{
    match trail {
        Trail::Over => {},
        Trail::Visit { next, rest } => {
            assert(rest.joins(next, end));
            lemma_tidy_move(walk, None, next);
            if let Move::Go(then) = next {
                lemma_tidy(*rest, then, end);
            }
        },
        Trail::Descend { trail, below, next, rest } => {
            assert(rest.joins(next, end));
            if let Node::Parent(child) = walk.node.children[walk.next] {
                lemma_tidy(*trail, Walk::begin(child, walk.visitor), below);
            }
            lemma_tidy_move(walk, Some(below), next);
            if let Move::Go(then) = next {
                lemma_tidy(*rest, then, end);
            }
        },
    }
}

/// A traversal, stopped or not, leaves no empty subtree behind, and the node and each one below has
/// the envelope around its children, if that held before. Where nothing is removed the node is left
/// as it was. A traversal that was stopped leaves a node that has children.
pub proof fn law_traversal_keeps_the_node_tidy<T: RTreeObject, V: BacktrackingDrainVisitor<T>>(
    node: Branch<T>,
    visitor: V,
    end: Walked<T, V>,
)
    requires
        traverses(node, visitor, end),
        node.is_tidy(),
    ensures
        end.node.is_tidy(),
        end.removed == 0 ==> end.node == node,
        end.stopped ==> end.node.children.len() > 0,
{
    let begin = Walk::begin(node, visitor);
    let trail = choose|trail: Trail<T, V>| #[trigger] trail.joins(Move::Go(begin), end);
    lemma_tidy(trail, begin, end);
}

/// A removal leaves no empty subtree behind, and each node has the envelope around its children,
/// if that held before. Where nothing is removed the tree is left as it was.
pub proof fn law_visitor_keeps_the_tree_tidy<T: RTreeObject, V: BacktrackingDrainVisitor<T>>(
    before: Branch<T>,
    visitor: V,
    removed: nat,
    after: Branch<T>,
    left: V,
)
    requires
        drains(before, visitor, removed, after, left),
        before.is_tidy(),
    ensures
        after.is_tidy(),
        removed == 0 ==> after == before,
{
    if let Some(end) = lemma_drains(before, visitor, removed, after, left) {
        law_traversal_keeps_the_node_tidy(before, visitor, end);
    }
}

/// Whether the children are tight and, unless something was removed, so is the node.
spec fn walks_tight<T: RTreeObject, V>(walk: Walk<T, V>) -> bool {
    &&& 0 <= walk.next <= walk.node.children.len()
    &&& all_tight(walk.node.children)
    &&& walk.removed == 0 ==> walk.node.is_tight()
}

proof fn lemma_tight_move<T: RTreeObject, V: BacktrackingDrainVisitor<T>>(
    walk: Walk<T, V>,
    below: Option<Walked<T, V>>,
    next: Move<T, V>,
)
    requires
        merges_freely::<T::Envelope>(),
        moves(walk, below, next),
        walks_tight(walk),
        below matches Some(b) ==> match walk.node.children[walk.next] {
            Node::Leaf(_) => true,
            Node::Parent(child) => {
                &&& b.node.is_tight()
                &&& b.removed == 0 ==> b.node.envelope == child.envelope
            },
        },
    ensures
        match next {
            Move::Go(then) => {
                &&& walks_tight(then)
                &&& then.removed >= walk.removed
                &&& then.node.envelope == walk.node.envelope
            },
            Move::End(end) => {
                &&& end.node.is_tight()
                &&& end.removed >= walk.removed
                &&& end.removed == 0 ==> end.node.envelope == walk.node.envelope
            },
        },
{
    if walk.next < walk.node.children.len() {
        if let Node::Parent(child) = walk.node.children[walk.next] {
            if let Some(below) = below {
                let back = walk.node.with_child(walk.next, Node::Parent(below.node));
                if below.removed == 0 {
                    lemma_envelope_same(walk.node.children, walk.next, Node::Parent(below.node));
                }
                lemma_envelope_swap_remove(back.children, walk.next);
            }
        }
    }
}

proof fn lemma_tight<T: RTreeObject, V: BacktrackingDrainVisitor<T>>(
    trail: Trail<T, V>,
    walk: Walk<T, V>,
    end: Walked<T, V>,
)
    requires
        merges_freely::<T::Envelope>(),
        trail.joins(Move::Go(walk), end),
        walks_tight(walk),
    ensures
        end.node.is_tight(),
        end.removed >= walk.removed,
        end.removed == 0 ==> end.node.envelope == walk.node.envelope,
    decreases trail,
{
    match trail {
        Trail::Over => {},
        Trail::Visit { next, rest } => {
            assert(rest.joins(next, end));
            lemma_tight_move(walk, None, next);
            if let Move::Go(then) = next {
                lemma_tight(*rest, then, end);
            }
        },
        Trail::Descend { trail, below, next, rest } => {
            assert(rest.joins(next, end));
            if let Node::Parent(child) = walk.node.children[walk.next] {
                lemma_tight(*trail, Walk::begin(child, walk.visitor), below);
            }
            lemma_tight_move(walk, Some(below), next);
            if let Move::Go(then) = next {
                lemma_tight(*rest, then, end);
            }
        },
    }
}

/// A traversal of a node that may hold empty subtrees, stopped or not, leaves the node and each one
/// below with the envelope around its children, if that held before. An empty subtree that is met
/// is taken out and no envelope is computed anew for that, so it must make no difference to an
/// envelope.
pub proof fn law_traversal_keeps_the_node_tight<T: RTreeObject, V: BacktrackingDrainVisitor<T>>(
    node: Branch<T>,
    visitor: V,
    end: Walked<T, V>,
)
    requires
        merges_freely::<T::Envelope>(),
        traverses(node, visitor, end),
        node.is_tight(),
    ensures
        end.node.is_tight(),
{
    let begin = Walk::begin(node, visitor);
    let trail = choose|trail: Trail<T, V>| #[trigger] trail.joins(Move::Go(begin), end);
    lemma_tight(trail, begin, end);
}

/// The same of a removal.
pub proof fn law_visitor_keeps_the_tree_tight<T: RTreeObject, V: BacktrackingDrainVisitor<T>>(
    before: Branch<T>,
    visitor: V,
    removed: nat,
    after: Branch<T>,
    left: V,
)
    requires
        merges_freely::<T::Envelope>(),
        drains(before, visitor, removed, after, left),
        before.is_tight(),
    ensures
        after.is_tight(),
{
    if let Some(end) = lemma_drains(before, visitor, removed, after, left) {
        law_traversal_keeps_the_node_tight(before, visitor, end);
    }
}

/// Whether each visitor that `holds` is true of decides by `choice`: it unpacks the subtrees that
/// may hold chosen objects, removes the chosen objects, and never stops.
pub open spec fn decides_by<T: RTreeObject, V: BacktrackingDrainVisitor<T>>(
    holds: spec_fn(V) -> bool,
    choice: Choice<T>,
) -> bool {
    &&& forall|visitor: V, envelope: T::Envelope, answer: bool| #[trigger]
        call_ensures(V::should_unpack_parent, (&visitor, &envelope), answer) && holds(visitor)
            ==> answer == (choice.parents)(envelope)
    &&& forall|before: V, leaf: T, control: VisitLeafControl, after: V| #[trigger]
        V::visited(before, leaf, control, after) && holds(before) ==> !(control is Stop)
            && removes(control) == (choice.objects)(leaf)
}

/// Whether none of the leading `end` nodes holds a chosen object that can be reached.
spec fn is_clear<T: RTreeObject>(choice: Choice<T>, nodes: Seq<Node<T>>, end: int) -> bool {
    forall|i: int|
        0 <= i < end && i < nodes.len() ==> choice.among(#[trigger] nodes[i]) == Multiset::<
            T,
        >::empty()
}

proof fn lemma_clear<T: RTreeObject>(choice: Choice<T>, nodes: Seq<Node<T>>)
    requires
        is_clear(choice, nodes, nodes.len() as int),
    ensures
        choice.among_all(nodes) == Multiset::<T>::empty(),
    decreases nodes.len(),
{
    if nodes.len() > 0 {
        let front = nodes.drop_last();
        lemma_clear(choice, front);
    }
}

/// Whether exactly those leaves were removed between `before` and `after` that are no longer among
/// the chosen ones.
spec fn trades<T: RTreeObject>(choice: Choice<T>, before: Branch<T>, after: Branch<T>) -> bool {
    after.leaves().add(choice.among_all(before.children)) == before.leaves().add(
        choice.among_all(after.children),
    )
}

proof fn lemma_trades<T: RTreeObject>(
    choice: Choice<T>,
    a: Branch<T>,
    b: Branch<T>,
    c: Branch<T>,
)
    requires
        trades(choice, a, b),
        trades(choice, b, c),
    ensures
        trades(choice, a, c),
{
    let left = c.leaves().add(choice.among_all(a.children));
    let right = a.leaves().add(choice.among_all(c.children));
    assert forall|t: T| left.count(t) == right.count(t) by {
        assert(b.leaves().add(choice.among_all(a.children)).count(t) == a.leaves().add(
            choice.among_all(b.children),
        ).count(t));
        assert(c.leaves().add(choice.among_all(b.children)).count(t) == b.leaves().add(
            choice.among_all(c.children),
        ).count(t));
    }
    assert(left =~= right);
}

proof fn lemma_trades_taken<T: RTreeObject>(choice: Choice<T>, node: Branch<T>, i: int)
    requires
        0 <= i < node.children.len(),
        choice.among(node.children[i]) == node.children[i].leaves(),
    ensures
        trades(choice, node, node.without_child(i)),
{
    let after = node.without_child(i);
    lemma_leaves_swap_remove(node.children, i);
    choice.lemma_swap_remove(node.children, i);
    assert(after.leaves().add(choice.among_all(node.children)) =~= node.leaves().add(
        choice.among_all(after.children),
    ));
}

proof fn lemma_trades_below<T: RTreeObject>(
    choice: Choice<T>,
    node: Branch<T>,
    i: int,
    child: Branch<T>,
    below: Branch<T>,
)
    requires
        0 <= i < node.children.len(),
        node.children[i] == Node::Parent(child),
        (choice.parents)(child.envelope),
        trades(choice, child, below),
        choice.among_all(below.children) == Multiset::<T>::empty(),
    ensures
        choice.among(Node::Parent(below)) == Multiset::<T>::empty(),
        trades(choice, node, node.with_child(i, Node::Parent(below))),
        below.children.len() == 0 ==> trades(
            choice,
            node,
            node.with_child(i, Node::Parent(below)).without_child(i),
        ),
{
    let after = node.with_child(i, Node::Parent(below));
    lemma_leaves_update(node.children, i, Node::Parent(below));
    choice.lemma_update(node.children, i, Node::Parent(below));
    let left = after.leaves().add(choice.among_all(node.children));
    let right = node.leaves().add(choice.among_all(after.children));
    assert forall|t: T| left.count(t) == right.count(t) by {
        assert(after.leaves().add(child.leaves()).count(t) == node.leaves().add(
            below.leaves(),
        ).count(t));
        assert(choice.among_all(after.children).add(choice.among(node.children[i])).count(t)
            == choice.among_all(node.children).add(choice.among(Node::Parent(below))).count(t));
        assert(below.leaves().add(choice.among_all(child.children)).count(t)
            == child.leaves().add(choice.among_all(below.children)).count(t));
    }
    assert(left =~= right);
    if below.children.len() == 0 {
        lemma_trades_taken(choice, after, i);
        lemma_trades(choice, node, after, after.without_child(i));
    }
}

proof fn lemma_choice_move<T: RTreeObject, V: BacktrackingDrainVisitor<T>>(
    holds: spec_fn(V) -> bool,
    choice: Choice<T>,
    walk: Walk<T, V>,
    below: Option<Walked<T, V>>,
    next: Move<T, V>,
)
    requires
        is_kept::<T, V>(holds),
        decides_by(holds, choice),
        holds(walk.visitor),
        moves(walk, below, next),
        0 <= walk.next <= walk.node.children.len(),
        is_clear(choice, walk.node.children, walk.next),
        below matches Some(b) ==> match walk.node.children[walk.next] {
            Node::Leaf(_) => true,
            Node::Parent(child) => {
                &&& holds(b.visitor)
                &&& !b.stopped
                &&& trades(choice, child, b.node)
                &&& choice.among_all(b.node.children) == Multiset::<T>::empty()
            },
        },
    ensures
        match next {
            Move::Go(then) => {
                &&& holds(then.visitor)
                &&& 0 <= then.next <= then.node.children.len()
                &&& is_clear(choice, then.node.children, then.next)
                &&& trades(choice, walk.node, then.node)
            },
            Move::End(end) => {
                &&& holds(end.visitor)
                &&& !end.stopped
                &&& trades(choice, walk.node, end.node)
                &&& choice.among_all(end.node.children) == Multiset::<T>::empty()
            },
        },
{
    if walk.next >= walk.node.children.len() {
        lemma_clear(choice, walk.node.children);
    } else {
        match walk.node.children[walk.next] {
            Node::Leaf(leaf) => {
                if (choice.objects)(leaf) {
                    lemma_trades_taken(choice, walk.node, walk.next);
                }
            },
            Node::Parent(child) => {
                if let Some(below) = below {
                    lemma_trades_below(choice, walk.node, walk.next, child, below.node);
                }
            },
        }
    }
}

proof fn lemma_choice<T: RTreeObject, V: BacktrackingDrainVisitor<T>>(
    holds: spec_fn(V) -> bool,
    choice: Choice<T>,
    trail: Trail<T, V>,
    walk: Walk<T, V>,
    end: Walked<T, V>,
)
    requires
        is_kept::<T, V>(holds),
        decides_by(holds, choice),
        holds(walk.visitor),
        trail.joins(Move::Go(walk), end),
        0 <= walk.next <= walk.node.children.len(),
        is_clear(choice, walk.node.children, walk.next),
    ensures
        holds(end.visitor),
        !end.stopped,
        trades(choice, walk.node, end.node),
        choice.among_all(end.node.children) == Multiset::<T>::empty(),
    decreases trail,
{
    match trail {
        Trail::Over => {},
        Trail::Visit { next, rest } => {
            assert(rest.joins(next, end));
            lemma_choice_move(holds, choice, walk, None, next);
            if let Move::Go(then) = next {
                lemma_choice(holds, choice, *rest, then, end);
                lemma_trades(choice, walk.node, then.node, end.node);
            }
        },
        Trail::Descend { trail, below, next, rest } => {
            if let Node::Parent(child) = walk.node.children[walk.next] {
                lemma_choice(holds, choice, *trail, Walk::begin(child, walk.visitor), below);
            }
            lemma_choice_move(holds, choice, walk, Some(below), next);
            if let Move::Go(then) = next {
                lemma_choice(holds, choice, *rest, then, end);
                lemma_trades(choice, walk.node, then.node, end.node);
            }
        },
    }
}

/// A traversal with a visitor that decides by a choice, whether or not it asks to go back, removes
/// exactly the chosen objects that can be reached, and leaves none that can be reached.
pub proof fn law_traversal_removes_all_that_is_chosen<
    T: RTreeObject,
    V: BacktrackingDrainVisitor<T>,
>(holds: spec_fn(V) -> bool, choice: Choice<T>, node: Branch<T>, visitor: V, end: Walked<T, V>)
    requires
        is_kept::<T, V>(holds),
        decides_by(holds, choice),
        holds(visitor),
        traverses(node, visitor, end),
    ensures
        holds(end.visitor),
        !end.stopped,
        end.node.leaves().add(choice.among_all(node.children)) == node.leaves(),
        end.removed == choice.among_all(node.children).len(),
        choice.among_all(end.node.children) == Multiset::<T>::empty(),
{
    let begin = Walk::begin(node, visitor);
    let trail = choose|trail: Trail<T, V>| #[trigger] trail.joins(Move::Go(begin), end);
    lemma_choice(holds, choice, trail, begin, end);
    lemma_traverses(node, visitor, end);
    assert(end.node.leaves().add(choice.among_all(node.children)) =~= node.leaves());
}

/// The same of a removal.
pub proof fn law_removes_all_that_is_chosen<T: RTreeObject, V: BacktrackingDrainVisitor<T>>(
    holds: spec_fn(V) -> bool,
    choice: Choice<T>,
    before: Branch<T>,
    visitor: V,
    removed: nat,
    after: Branch<T>,
    left: V,
)
    requires
        is_kept::<T, V>(holds),
        decides_by(holds, choice),
        holds(visitor),
        drains(before, visitor, removed, after, left),
    ensures
        after.leaves().add(choice.among(Node::Parent(before))) == before.leaves(),
        removed == choice.among(Node::Parent(before)).len(),
        choice.among(Node::Parent(after)) == Multiset::<T>::empty(),
{
    if let Some(end) = lemma_drains(before, visitor, removed, after, left) {
        law_traversal_removes_all_that_is_chosen(holds, choice, before, visitor, end);
    }
}

} // verus!
