//! Where a removal goes on after each visit, and what it has seen in the end.

use crate::model::{envelope_of, Branch, Node};
use crate::object::RTreeObject;
use crate::once_laws::{never_stops, unpacks_by};
use crate::traversal::{
    after_leaf, drains, lemma_drains, lemma_traverses, moves, traverses, Move, Trail, Walk, Walked,
};
use crate::visit_laws::{
    asks_back, everything, is_made_of, is_record, is_record_of_removal, kept_since,
    law_traversal_is_made_of_visits, lemma_among_one, lemma_asks_back_add, lemma_history_keeps,
    lemma_kept_since_add, lemma_made_of_below, lemma_made_of_both, lemma_made_of_none,
    lemma_made_of_one, lemma_no_visits, Visit,
};
use crate::visitor::{BacktrackingDrainVisitor, VisitLeafControl};
use crate::visitor_laws::is_kept;
use vstd::prelude::*;

verus! {

/// Whether `visitor` may answer `answer` when it is asked about a child that was dealt with: about
/// a leaf by `should_revisit_leaf`, about a subtree by `should_revisit_parent`.
pub open spec fn may_answer<T: RTreeObject, V: BacktrackingDrainVisitor<T>>(
    visitor: V,
    node: Node<T>,
    answer: bool,
) -> bool {
    match node {
        Node::Leaf(leaf) => call_ensures(V::should_revisit_leaf, (&visitor, &leaf), answer),
        Node::Parent(branch) => call_ensures(
            V::should_revisit_parent,
            (&visitor, &branch.envelope),
            answer,
        ),
    }
}

/// Whether a traversal that was asked to go back when the leading `processed` children of `before`
/// were dealt with goes on at the first of them that the visitor wants revisited: each one before
/// that was declined, and none that is not declined is left behind. If all were declined, whether
/// it goes on behind them.
pub open spec fn goes_to_first_wanted<T: RTreeObject, V: BacktrackingDrainVisitor<T>>(
    before: Seq<Node<T>>,
    processed: int,
    then: Walk<T, V>,
) -> bool {
    let nodes = then.node.children;
    &&& processed <= nodes.len()
    &&& forall|j: int| 0 <= j < processed ==> #[trigger] nodes[j] == before[j]
    &&& 0 <= then.next
    &&& forall|j: int|
        0 <= j < processed && j < then.next ==> may_answer(then.visitor, #[trigger] nodes[j], false)
    &&& forall|j: int|
        0 <= j < processed && !may_answer(then.visitor, #[trigger] nodes[j], false) ==> then.next
            <= j
    &&& then.next < processed ==> may_answer(then.visitor, nodes[then.next], true)
}

/// Whether `after` is `before` without the one at `i`, whose place the last one takes.
pub open spec fn is_without<A>(after: Seq<A>, before: Seq<A>, i: int) -> bool {
    &&& after.len() == before.len() - 1
    &&& forall|j: int| 0 <= j < after.len() && j != i ==> #[trigger] after[j] == before[j]
    &&& i < after.len() ==> after[i] == before[before.len() - 1]
}

/// Whether `after` is `before` with `item` at `i`.
pub open spec fn is_with<A>(after: Seq<A>, before: Seq<A>, i: int, item: A) -> bool {
    &&& after.len() == before.len()
    &&& forall|j: int| 0 <= j < after.len() && j != i ==> #[trigger] after[j] == before[j]
    &&& after[i] == item
}

/// Whether a traversal that has removed `removed` leaves leaves the node behind with the envelope
/// around its children, or with `recorded` if it has removed none.
pub open spec fn is_put_in_order<T: RTreeObject>(
    node: Branch<T>,
    recorded: T::Envelope,
    removed: nat,
) -> bool {
    node.envelope == if removed == 0 {
        recorded
    } else {
        envelope_of(node.children)
    }
}

/// What each answer to a visit of a leaf does. A leaf that is kept stays where it is and the next
/// child is next. The place of a leaf that is removed is taken by the last child. If the removal
/// asks to go back, the traversal goes on at the first child that was dealt with and is wanted
/// again, for every visitor; otherwise it does not go back. A stop leaves all as it is.
pub proof fn law_visit_of_a_leaf<T: RTreeObject, V: BacktrackingDrainVisitor<T>>(
    walk: Walk<T, V>,
    control: VisitLeafControl,
    visitor: V,
    next: Move<T, V>,
)
    requires
        0 <= walk.next < walk.node.children.len(),
        walk.node.children[walk.next] is Leaf,
        after_leaf(walk, control, visitor, next),
    ensures
        match control {
            VisitLeafControl::Keep => match next {
                Move::End(_) => false,
                Move::Go(then) => {
                    &&& then.node == walk.node && then.visitor == visitor
                    &&& then.next == walk.next + 1
                    &&& then.removed == walk.removed && then.revisit == walk.revisit
                },
            },
            VisitLeafControl::Remove => match next {
                Move::End(_) => false,
                Move::Go(then) => {
                    &&& is_without(then.node.children, walk.node.children, walk.next)
                    &&& then.node.envelope == walk.node.envelope && then.visitor == visitor
                    &&& then.next == walk.next
                    &&& then.removed == walk.removed + 1 && then.revisit == walk.revisit
                },
            },
            VisitLeafControl::RemoveAndRevisit => match next {
                Move::End(_) => false,
                Move::Go(then) => {
                    &&& is_without(then.node.children, walk.node.children, walk.next)
                    &&& then.node.envelope == walk.node.envelope && then.visitor == visitor
                    &&& goes_to_first_wanted(walk.node.children, walk.next, then)
                    &&& then.next <= walk.next
                    &&& then.removed == walk.removed + 1 && then.revisit
                },
            },
            VisitLeafControl::Stop => match next {
                Move::Go(_) => false,
                Move::End(end) => {
                    &&& end.stopped && end.visitor == visitor
                    &&& end.node.children == walk.node.children
                    &&& is_put_in_order(end.node, walk.node.envelope, walk.removed)
                    &&& end.removed == walk.removed && end.revisit == walk.revisit
                },
            },
        },
{
}

/// What a traversal of a subtree does to the one above. The subtree is unpacked only if the visitor
/// says so. What is left of it stays where it is; if nothing is left, the last child takes its
/// place. A stop below stops the traversal. If a removal below asks to go back, the traversal goes
/// on at the first child that was dealt with and is wanted again, for every visitor and whatever
/// the answers to the leaves below; otherwise it does not go back.
pub proof fn law_walk_of_a_subtree<T: RTreeObject, V: BacktrackingDrainVisitor<T>>(
    walk: Walk<T, V>,
    child: Branch<T>,
    below: Walked<T, V>,
    next: Move<T, V>,
)
    requires
        0 <= walk.next < walk.node.children.len(),
        walk.node.children[walk.next] == Node::Parent(child),
        moves(walk, Some(below), next),
    ensures
        call_ensures(V::should_unpack_parent, (&walk.visitor, &child.envelope), true),
        below.stopped == (next is End),
        match next {
            Move::End(end) => {
                &&& end.stopped && end.visitor == below.visitor
                &&& is_with(
                    end.node.children,
                    walk.node.children,
                    walk.next,
                    Node::Parent(below.node),
                )
                &&& end.removed == walk.removed + below.removed
                &&& is_put_in_order(end.node, walk.node.envelope, end.removed)
                &&& end.revisit == (walk.revisit || below.revisit)
            },
            Move::Go(then) => {
                let past = if below.node.children.len() == 0 {
                    walk.next
                } else {
                    walk.next + 1
                };
                &&& below.node.children.len() == 0 ==> is_without(
                    then.node.children,
                    walk.node.children,
                    walk.next,
                )
                &&& below.node.children.len() > 0 ==> is_with(
                    then.node.children,
                    walk.node.children,
                    walk.next,
                    Node::Parent(below.node),
                )
                &&& then.node.envelope == walk.node.envelope && then.visitor == below.visitor
                &&& then.removed == walk.removed + below.removed
                &&& then.revisit == (walk.revisit || below.revisit)
                &&& !below.revisit ==> then.next == past
                &&& below.revisit ==> goes_to_first_wanted(
                    walk.node.children,
                    walk.next,
                    then,
                ) && (then.next < walk.next || then.next == past)
            },
        },
{
}

/// What a traversal does where it does not visit anything. It passes over a subtree only if the
/// visitor does not unpack it, and ends only behind the last child.
pub proof fn law_move_without_a_visit<T: RTreeObject, V: BacktrackingDrainVisitor<T>>(
    walk: Walk<T, V>,
    next: Move<T, V>,
)
    requires
        0 <= walk.next <= walk.node.children.len(),
        walk.next < walk.node.children.len() ==> walk.node.children[walk.next] is Parent,
        moves(walk, None, next),
    ensures
        match next {
            Move::Go(then) => {
                &&& walk.next < walk.node.children.len()
                &&& walk.node.children[walk.next] matches Node::Parent(child) && call_ensures(
                    V::should_unpack_parent,
                    (&walk.visitor, &child.envelope),
                    false,
                )
                &&& then.node == walk.node && then.visitor == walk.visitor
                &&& then.next == walk.next + 1
                &&& then.removed == walk.removed && then.revisit == walk.revisit
            },
            Move::End(end) => {
                &&& walk.next == walk.node.children.len()
                &&& !end.stopped && end.visitor == walk.visitor
                &&& end.node.children == walk.node.children
                &&& is_put_in_order(end.node, walk.node.envelope, walk.removed)
                &&& end.removed == walk.removed && end.revisit == walk.revisit
            },
        },
{
}

/// Whether each visitor that `holds` is true of wants each leaf revisited that `wanted` is true of,
/// and each subtree that `parents` is true of.
pub open spec fn revisits_wanted<T: RTreeObject, V: BacktrackingDrainVisitor<T>>(
    holds: spec_fn(V) -> bool,
    parents: spec_fn(T::Envelope) -> bool,
    wanted: spec_fn(T) -> bool,
) -> bool {
    forall|visitor: V, node: Node<T>, answer: bool| #[trigger]
        may_answer(visitor, node, answer) && holds(visitor) ==> match node {
            Node::Leaf(leaf) => wanted(leaf) ==> answer,
            Node::Parent(branch) => parents(branch.envelope) ==> answer,
        }
}

/// Whether all leaves that can be reached at or below `node` are in `seen`.
pub open spec fn is_all_seen<T: RTreeObject>(
    parents: spec_fn(T::Envelope) -> bool,
    node: Node<T>,
    seen: Set<T>,
) -> bool {
    forall|leaf: T| #[trigger]
        everything(parents).among(node).count(leaf) > 0 ==> seen.contains(leaf)
}

/// Whether all leaves that can be reached at or below one of the leading `end` nodes are in `seen`,
/// but for unwanted leaves among these nodes themselves and, where `path` leads into a subtree,
/// among its children and so on.
pub open spec fn is_seen_but_for<T: RTreeObject>(
    parents: spec_fn(T::Envelope) -> bool,
    wanted: spec_fn(T) -> bool,
    path: Seq<int>,
    nodes: Seq<Node<T>>,
    end: int,
    seen: Set<T>,
) -> bool
    decreases path.len(),
{
    forall|j: int|
        0 <= j < end && j < nodes.len() ==> match #[trigger] nodes[j] {
            Node::Leaf(leaf) => wanted(leaf) ==> seen.contains(leaf),
            Node::Parent(branch) => if path.len() > 0 && path[0] == j {
                parents(branch.envelope) ==> is_seen_but_for(
                    parents,
                    wanted,
                    path.drop_first(),
                    branch.children,
                    branch.children.len() as int,
                    seen,
                )
            } else {
                is_all_seen(parents, nodes[j], seen)
            },
        }
}

/// Whether all leaves that can be reached at or below one of the leading `end` nodes are in `seen`.
spec fn are_all_seen<T: RTreeObject>(
    parents: spec_fn(T::Envelope) -> bool,
    nodes: Seq<Node<T>>,
    end: int,
    seen: Set<T>,
) -> bool {
    forall|j: int|
        0 <= j < end && j < nodes.len() ==> is_all_seen(parents, #[trigger] nodes[j], seen)
}

proof fn lemma_seen_more<T: RTreeObject>(
    parents: spec_fn(T::Envelope) -> bool,
    wanted: spec_fn(T) -> bool,
    path: Seq<int>,
    nodes: Seq<Node<T>>,
    others: Seq<Node<T>>,
    end: int,
    seen: Set<T>,
    more: Set<T>,
)
    requires
        is_seen_but_for(parents, wanted, path, nodes, end, seen),
        forall|j: int| 0 <= j < end && j < others.len() ==> j < nodes.len() && #[trigger] others[j]
            == nodes[j],
        seen.subset_of(more),
    ensures
        is_seen_but_for(parents, wanted, path, others, end, more),
    decreases path.len(),
{
    assert forall|j: int| 0 <= j < end && j < others.len() implies match #[trigger] others[j] {
        Node::Leaf(leaf) => wanted(leaf) ==> more.contains(leaf),
        Node::Parent(branch) => if path.len() > 0 && path[0] == j {
            parents(branch.envelope) ==> is_seen_but_for(
                parents,
                wanted,
                path.drop_first(),
                branch.children,
                branch.children.len() as int,
                more,
            )
        } else {
            is_all_seen(parents, others[j], more)
        },
    } by {
        if let Node::Parent(branch) = nodes[j] {
            if path.len() > 0 && path[0] == j {
                if parents(branch.envelope) {
                    lemma_seen_more(
                        parents,
                        wanted,
                        path.drop_first(),
                        branch.children,
                        branch.children,
                        branch.children.len() as int,
                        seen,
                        more,
                    );
                }
            }
        }
    }
}

/// What a subtree whose children are all seen has below it is all seen.
proof fn lemma_subtree_seen<T: RTreeObject>(
    parents: spec_fn(T::Envelope) -> bool,
    branch: Branch<T>,
    seen: Set<T>,
)
    requires
        are_all_seen(parents, branch.children, branch.children.len() as int, seen),
    ensures
        is_all_seen(parents, Node::Parent(branch), seen),
{
    let node = Node::Parent(branch);
    assert forall|leaf: T| #[trigger]
        everything(parents).among(node).count(leaf) > 0 implies seen.contains(leaf) by {
        lemma_among_one(everything(parents), branch.children, leaf);
    }
}

/// The children that a traversal which goes back leaves behind need not be seen.
proof fn lemma_seen_when_back<T: RTreeObject, V: BacktrackingDrainVisitor<T>>(
    holds: spec_fn(V) -> bool,
    parents: spec_fn(T::Envelope) -> bool,
    wanted: spec_fn(T) -> bool,
    before: Seq<Node<T>>,
    processed: int,
    then: Walk<T, V>,
    end: int,
    path: Seq<int>,
    seen: Set<T>,
)
    requires
        revisits_wanted(holds, parents, wanted),
        holds(then.visitor),
        goes_to_first_wanted(before, processed, then),
        end <= processed,
        end <= then.next,
        path.len() > 0 ==> path[0] >= end,
    ensures
        is_seen_but_for(parents, wanted, path, then.node.children, end, seen),
{
    let nodes = then.node.children;
    assert forall|j: int| 0 <= j < end && j < nodes.len() implies match #[trigger] nodes[j] {
        Node::Leaf(leaf) => wanted(leaf) ==> seen.contains(leaf),
        Node::Parent(branch) => is_all_seen(parents, nodes[j], seen),
    } by {
        assert(may_answer(then.visitor, nodes[j], false));
    }
}

/// What a walk has seen of the children that it has dealt with.
spec fn has_dealt_with<T: RTreeObject, V>(
    parents: spec_fn(T::Envelope) -> bool,
    wanted: spec_fn(T) -> bool,
    path: Seq<int>,
    walk: Walk<T, V>,
    so_far: Seq<Visit<T, V>>,
) -> bool {
    &&& path.len() > 0 ==> 0 <= path[0] < walk.next
    &&& is_seen_but_for(
        parents,
        wanted,
        path,
        walk.node.children,
        walk.next,
        kept_since(so_far),
    )
}

/// After a visit of a leaf.
proof fn lemma_dealt_with_leaf<T: RTreeObject, V: BacktrackingDrainVisitor<T>>(
    holds: spec_fn(V) -> bool,
    parents: spec_fn(T::Envelope) -> bool,
    wanted: spec_fn(T) -> bool,
    path: Seq<int>,
    walk: Walk<T, V>,
    so_far: Seq<Visit<T, V>>,
    visit: Visit<T, V>,
    then: Walk<T, V>,
) -> (now: Seq<int>)
    requires
        revisits_wanted(holds, parents, wanted),
        holds(visit.after),
        0 <= walk.next < walk.node.children.len(),
        walk.node.children[walk.next] == Node::Leaf(visit.leaf),
        after_leaf(walk, visit.control, visit.after, Move::Go(then)),
    ensures
        has_dealt_with(parents, wanted, path, walk, so_far) ==> has_dealt_with(
            parents,
            wanted,
            now,
            then,
            so_far + seq![visit],
        ),
        !(visit.control is RemoveAndRevisit) && are_all_seen(
            parents,
            walk.node.children,
            walk.next,
            kept_since(so_far),
        ) ==> are_all_seen(
            parents,
            then.node.children,
            then.next,
            kept_since(so_far + seq![visit]),
        ),
{
    let visits = so_far + seq![visit];
    let seen = kept_since(visits);
    let nodes = then.node.children;
    assert(visits.drop_last() =~= so_far);
    law_visit_of_a_leaf(walk, visit.control, visit.after, Move::Go(then));
    if visit.control is RemoveAndRevisit {
        lemma_seen_when_back(
            holds,
            parents,
            wanted,
            walk.node.children,
            walk.next,
            then,
            then.next,
            Seq::empty(),
            seen,
        );
        Seq::empty()
    } else {
        if has_dealt_with(parents, wanted, path, walk, so_far) {
            lemma_seen_more(
                parents,
                wanted,
                path,
                walk.node.children,
                nodes,
                walk.next,
                kept_since(so_far),
                seen,
            );
        }
        if are_all_seen(parents, walk.node.children, walk.next, kept_since(so_far)) {
            assert forall|j: int| 0 <= j < then.next && j < nodes.len() implies is_all_seen(
                parents,
                #[trigger] nodes[j],
                seen,
            ) by {
                if j < walk.next {
                    assert(nodes[j] == walk.node.children[j]);
                }
            }
        }
        path
    }
}

/// After a walk of a subtree.
proof fn lemma_dealt_with_subtree<T: RTreeObject, V: BacktrackingDrainVisitor<T>>(
    holds: spec_fn(V) -> bool,
    parents: spec_fn(T::Envelope) -> bool,
    wanted: spec_fn(T) -> bool,
    path: Seq<int>,
    walk: Walk<T, V>,
    child: Branch<T>,
    below: Walked<T, V>,
    so_far: Seq<Visit<T, V>>,
    visits: Seq<Visit<T, V>>,
    inner: Seq<int>,
    then: Walk<T, V>,
) -> (now: Seq<int>)
    requires
        revisits_wanted(holds, parents, wanted),
        holds(below.visitor),
        0 <= walk.next < walk.node.children.len(),
        walk.node.children[walk.next] == Node::Parent(child),
        moves(walk, Some(below), Move::Go(then)),
        below.revisit == asks_back(visits),
        is_seen_but_for(
            parents,
            wanted,
            inner,
            below.node.children,
            below.node.children.len() as int,
            kept_since(so_far + visits),
        ),
        !asks_back(visits) ==> are_all_seen(
            parents,
            below.node.children,
            below.node.children.len() as int,
            kept_since(so_far + visits),
        ),
    ensures
        has_dealt_with(parents, wanted, path, walk, so_far) ==> has_dealt_with(
            parents,
            wanted,
            now,
            then,
            so_far + visits,
        ),
        !asks_back(visits) && are_all_seen(
            parents,
            walk.node.children,
            walk.next,
            kept_since(so_far),
        ) ==> are_all_seen(parents, then.node.children, then.next, kept_since(so_far + visits)),
{
    let seen = kept_since(so_far + visits);
    let nodes = then.node.children;
    law_walk_of_a_subtree(walk, child, below, Move::Go(then));
    if below.revisit {
        if then.next <= walk.next {
            lemma_seen_when_back(
                holds,
                parents,
                wanted,
                walk.node.children,
                walk.next,
                then,
                then.next,
                Seq::empty(),
                seen,
            );
            Seq::empty()
        } else {
            let now = seq![walk.next] + inner;
            lemma_seen_when_back(
                holds,
                parents,
                wanted,
                walk.node.children,
                walk.next,
                then,
                walk.next,
                now,
                seen,
            );
            assert(now.drop_first() =~= inner);
            now
        }
    } else {
        lemma_kept_since_add(so_far, visits);
        lemma_subtree_seen(parents, below.node, seen);
        if has_dealt_with(parents, wanted, path, walk, so_far) {
            lemma_seen_more(
                parents,
                wanted,
                path,
                walk.node.children,
                nodes,
                walk.next,
                kept_since(so_far),
                seen,
            );
        }
        path
    }
}

proof fn lemma_returns<T: RTreeObject, V: BacktrackingDrainVisitor<T>>(
    holds: spec_fn(V) -> bool,
    parents: spec_fn(T::Envelope) -> bool,
    wanted: spec_fn(T) -> bool,
    trail: Trail<T, V>,
    walk: Walk<T, V>,
    end: Walked<T, V>,
    so_far: Seq<Visit<T, V>>,
    path: Seq<int>,
) -> (result: (Seq<Visit<T, V>>, Seq<int>))
    requires
        is_kept::<T, V>(holds),
        holds(walk.visitor),
        unpacks_by(holds, parents),
        revisits_wanted(holds, parents, wanted),
        trail.joins(Move::Go(walk), end),
        0 <= walk.next <= walk.node.children.len(),
    ensures
        holds(end.visitor),
        is_made_of(walk, result.0, Move::End(end)),
        !end.stopped && has_dealt_with(parents, wanted, path, walk, so_far) ==> is_seen_but_for(
            parents,
            wanted,
            result.1,
            end.node.children,
            end.node.children.len() as int,
            kept_since(so_far + result.0),
        ),
        !end.stopped && !asks_back(result.0) && are_all_seen(
            parents,
            walk.node.children,
            walk.next,
            kept_since(so_far),
        ) ==> are_all_seen(
            parents,
            end.node.children,
            end.node.children.len() as int,
            kept_since(so_far + result.0),
        ),
    decreases trail,
{
    let nodes = walk.node.children;
    let i = walk.next;
    match trail {
        Trail::Over => (Seq::empty(), path),
        Trail::Visit { next, rest } => {
            assert(rest.joins(next, end));
            if i < nodes.len() && nodes[i] is Leaf {
                let leaf = nodes[i]->Leaf_0;
                let (control, visitor) = choose|control: VisitLeafControl, visitor: V| #[trigger]
                    V::visited(walk.visitor, leaf, control, visitor) && after_leaf(
                        walk,
                        control,
                        visitor,
                        next,
                    );
                let visit = Visit { before: walk.visitor, leaf, control, after: visitor };
                let first = seq![visit];
                lemma_made_of_one(walk, visit, next);
                law_visit_of_a_leaf(walk, control, visitor, next);
                match next {
                    Move::Go(then) => {
                        let now = lemma_dealt_with_leaf(
                            holds,
                            parents,
                            wanted,
                            path,
                            walk,
                            so_far,
                            visit,
                            then,
                        );
                        let (more, last) = lemma_returns(
                            holds,
                            parents,
                            wanted,
                            *rest,
                            then,
                            end,
                            so_far + first,
                            now,
                        );
                        lemma_made_of_both(walk, first, then, more, Move::End(end));
                        lemma_asks_back_add(first, more);
                        assert(so_far + first + more =~= so_far + (first + more));
                        (first + more, last)
                    },
                    Move::End(_) => (first, path),
                }
            } else {
                let none = Seq::<Visit<T, V>>::empty();
                lemma_made_of_none(walk, next);
                law_move_without_a_visit(walk, next);
                match next {
                    Move::Go(then) => {
                        let (more, last) = lemma_returns(
                            holds,
                            parents,
                            wanted,
                            *rest,
                            then,
                            end,
                            so_far,
                            path,
                        );
                        lemma_made_of_both(walk, none, then, more, Move::End(end));
                        (more, last)
                    },
                    Move::End(_) => (none, path),
                }
            }
        },
        Trail::Descend { trail, below, next, rest } => {
            assert(rest.joins(next, end));
            let child = nodes[i]->Parent_0;
            let begin = Walk::begin(child, walk.visitor);
            let (first, inner) = lemma_returns(
                holds,
                parents,
                wanted,
                *trail,
                begin,
                below,
                so_far,
                Seq::empty(),
            );
            lemma_made_of_below(walk, child, below, first, next);
            law_walk_of_a_subtree(walk, child, below, next);
            match next {
                Move::Go(then) => {
                    let now = lemma_dealt_with_subtree(
                        holds,
                        parents,
                        wanted,
                        path,
                        walk,
                        child,
                        below,
                        so_far,
                        first,
                        inner,
                        then,
                    );
                    let (more, last) = lemma_returns(
                        holds,
                        parents,
                        wanted,
                        *rest,
                        then,
                        end,
                        so_far + first,
                        now,
                    );
                    lemma_made_of_both(walk, first, then, more, Move::End(end));
                    lemma_asks_back_add(first, more);
                    assert(so_far + first + more =~= so_far + (first + more));
                    (first + more, last)
                },
                Move::End(_) => (first, path),
            }
        },
    }
}

/// A traversal that was not stopped, with any mix of wanted and declined leaves, has in the end
/// seen since the last visit that asked to go back each leaf that can be reached and is wanted
/// again. Of the declined ones it has seen all but those that stand beside the subtrees on one
/// path, from the node down to where that visit was: each subtree off that path was walked again as
/// a whole.
pub proof fn law_no_wanted_leaf_or_subtree_is_left_behind<
    T: RTreeObject,
    V: BacktrackingDrainVisitor<T>,
>(
    holds: spec_fn(V) -> bool,
    parents: spec_fn(T::Envelope) -> bool,
    wanted: spec_fn(T) -> bool,
    node: Branch<T>,
    visitor: V,
    end: Walked<T, V>,
)
    requires
        is_kept::<T, V>(holds),
        holds(visitor),
        unpacks_by(holds, parents),
        revisits_wanted(holds, parents, wanted),
        traverses(node, visitor, end),
        !end.stopped,
    ensures
        exists|visits: Seq<Visit<T, V>>, path: Seq<int>|
            #![trigger is_record(node, visitor, visits, end), path.len()]
            is_record(node, visitor, visits, end) && is_seen_but_for(
                parents,
                wanted,
                path,
                end.node.children,
                end.node.children.len() as int,
                kept_since(visits),
            ),
{
    let begin = Walk::begin(node, visitor);
    let trail = choose|trail: Trail<T, V>| #[trigger] trail.joins(Move::Go(begin), end);
    let (visits, path) = lemma_returns(
        holds,
        parents,
        wanted,
        trail,
        begin,
        end,
        Seq::empty(),
        Seq::empty(),
    );
    lemma_traverses(node, visitor, end);
    assert(is_record(node, visitor, visits, end));
}

/// The same of a removal with a visitor that never stops.
pub proof fn law_removal_leaves_nothing_wanted_behind<
    T: RTreeObject,
    V: BacktrackingDrainVisitor<T>,
>(
    holds: spec_fn(V) -> bool,
    parents: spec_fn(T::Envelope) -> bool,
    wanted: spec_fn(T) -> bool,
    before: Branch<T>,
    visitor: V,
    removed: nat,
    after: Branch<T>,
    left: V,
)
    requires
        is_kept::<T, V>(holds),
        holds(visitor),
        unpacks_by(holds, parents),
        revisits_wanted(holds, parents, wanted),
        never_stops::<T, V>(holds),
        parents(before.envelope),
        drains(before, visitor, removed, after, left),
    ensures
        exists|visits: Seq<Visit<T, V>>, path: Seq<int>|
            #![trigger
                is_record_of_removal(before, visitor, visits, removed, after, left),
                path.len()
            ]
            is_record_of_removal(before, visitor, visits, removed, after, left) && is_seen_but_for(
                parents,
                wanted,
                path,
                after.children,
                after.children.len() as int,
                kept_since(visits),
            ),
{
    match lemma_drains(before, visitor, removed, after, left) {
        Some(end) => {
            law_traversal_is_made_of_visits(before, visitor, end);
            if end.stopped {
                let visits = choose|visits: Seq<Visit<T, V>>| #[trigger]
                    is_record(before, visitor, visits, end);
                lemma_history_keeps(holds, visitor, visits.drop_last(), visits.last().before);
            }
            law_no_wanted_leaf_or_subtree_is_left_behind(
                holds,
                parents,
                wanted,
                before,
                visitor,
                end,
            );
            let (visits, path) = choose|visits: Seq<Visit<T, V>>, path: Seq<int>|
                #![trigger is_record(before, visitor, visits, end), path.len()]
                is_record(before, visitor, visits, end) && is_seen_but_for(
                    parents,
                    wanted,
                    path,
                    end.node.children,
                    end.node.children.len() as int,
                    kept_since(visits),
                );
            assert(is_record_of_removal(before, visitor, visits, removed, after, left));
        },
        None => {
            let visits = lemma_no_visits(before, visitor);
            let path = Seq::<int>::empty();
            assert(is_record_of_removal(before, visitor, visits, removed, after, left));
            assert(path.len() >= 0);
        },
    }
}

} // verus!
