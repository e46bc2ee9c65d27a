//! What holds of the visits that a removal is made of.

use crate::model::{leaves_of, lemma_leaves_swap_remove, lemma_leaves_update, Branch, Choice, Node};
use crate::object::RTreeObject;
use crate::traversal::{
    after_leaf, drains, lemma_drains, lemma_traverses, moves, revisits, traverses, Move, Trail,
    Walk, Walked,
};
use crate::visitor::{BacktrackingDrainVisitor, VisitLeafControl};
use crate::visitor_laws::{is_kept, removes};
use vstd::multiset::Multiset;
use vstd::prelude::*;

verus! {

/// A visit of a leaf.
#[verifier::reject_recursive_types(T)]
#[verifier::reject_recursive_types(V)]
pub struct Visit<T: RTreeObject, V> {
    /// The visitor as it was before.
    pub before: V,
    pub leaf: T,
    /// The visitor's answer.
    pub control: VisitLeafControl,
    /// The visitor as it was left behind.
    pub after: V,
}

/// Whether `visitor` may make `visits`, one after the other, and be `left` behind.
pub open spec fn is_history<T: RTreeObject, V: BacktrackingDrainVisitor<T>>(
    visitor: V,
    visits: Seq<Visit<T, V>>,
    left: V,
) -> bool
    decreases visits.len(),
{
    if visits.len() == 0 {
        left == visitor
    } else {
        let last = visits.last();
        &&& last.after == left
        &&& V::visited(last.before, last.leaf, last.control, last.after)
        &&& is_history(visitor, visits.drop_last(), last.before)
    }
}

/// The leaves whose visit was answered with a removal.
pub open spec fn taken<T: RTreeObject, V>(visits: Seq<Visit<T, V>>) -> Multiset<T>
    decreases visits.len(),
{
    if visits.len() == 0 {
        Multiset::empty()
    } else if removes(visits.last().control) {
        taken(visits.drop_last()).insert(visits.last().leaf)
    } else {
        taken(visits.drop_last())
    }
}

/// The leaves whose visit was answered with `VisitLeafControl::Keep` since the last one that was
/// answered with `VisitLeafControl::RemoveAndRevisit`.
pub open spec fn kept_since<T: RTreeObject, V>(visits: Seq<Visit<T, V>>) -> Set<T>
    decreases visits.len(),
{
    if visits.len() == 0 || visits.last().control is RemoveAndRevisit {
        Set::empty()
    } else if visits.last().control is Keep {
        kept_since(visits.drop_last()).insert(visits.last().leaf)
    } else {
        kept_since(visits.drop_last())
    }
}

/// Whether one of the visits was answered with `VisitLeafControl::RemoveAndRevisit`.
pub open spec fn asks_back<T: RTreeObject, V>(visits: Seq<Visit<T, V>>) -> bool {
    exists|i: int| 0 <= i < visits.len() && (#[trigger] visits[i]).control is RemoveAndRevisit
}

/// Whether the last visit was answered with `VisitLeafControl::Stop`, if `stopped`, and no other.
pub open spec fn stops_last<T: RTreeObject, V>(visits: Seq<Visit<T, V>>, stopped: bool) -> bool {
    &&& forall|i: int|
        0 <= i < visits.len() && (#[trigger] visits[i]).control is Stop ==> stopped && i
            == visits.len() - 1
    &&& stopped ==> visits.len() > 0 && visits.last().control is Stop
}

proof fn lemma_history_add<T: RTreeObject, V: BacktrackingDrainVisitor<T>>(
    visitor: V,
    first: Seq<Visit<T, V>>,
    middle: V,
    second: Seq<Visit<T, V>>,
    left: V,
)
    requires
        is_history(visitor, first, middle),
        is_history(middle, second, left),
    ensures
        is_history(visitor, first + second, left),
        taken(first + second) == taken(first).add(taken(second)),
    decreases second.len(),
{
    if second.len() > 0 {
        assert((first + second).drop_last() =~= first + second.drop_last());
        lemma_history_add(visitor, first, middle, second.drop_last(), second.last().before);
    }
}

pub proof fn lemma_asks_back_add<T: RTreeObject, V>(
    first: Seq<Visit<T, V>>,
    second: Seq<Visit<T, V>>,
)
    ensures
        asks_back(first + second) == (asks_back(first) || asks_back(second)),
{
    let both = first + second;
    if asks_back(first) {
        let i = choose|i: int| 0 <= i < first.len() && first[i].control is RemoveAndRevisit;
        assert(both[i].control is RemoveAndRevisit);
    }
    if asks_back(second) {
        let i = choose|i: int| 0 <= i < second.len() && second[i].control is RemoveAndRevisit;
        assert(both[first.len() + i].control is RemoveAndRevisit);
    }
}

pub proof fn lemma_kept_since_add<T: RTreeObject, V>(
    first: Seq<Visit<T, V>>,
    second: Seq<Visit<T, V>>,
)
    requires
        !asks_back(second),
    ensures
        kept_since(first).subset_of(kept_since(first + second)),
    decreases second.len(),
{
    if second.len() > 0 {
        let front = second.drop_last();
        assert((first + second).drop_last() =~= first + front);
        lemma_kept_since_add(first, front);
    }
}

/// The visitor as a move leaves it.
pub open spec fn visitor_after<T: RTreeObject, V>(next: Move<T, V>) -> V {
    match next {
        Move::Go(then) => then.visitor,
        Move::End(then) => then.visitor,
    }
}

/// The node as a move leaves it.
pub open spec fn node_after<T: RTreeObject, V>(next: Move<T, V>) -> Branch<T> {
    match next {
        Move::Go(then) => then.node,
        Move::End(then) => then.node,
    }
}

/// Whether a removal has asked to go back when a move is made.
pub open spec fn revisit_after<T: RTreeObject, V>(next: Move<T, V>) -> bool {
    match next {
        Move::Go(then) => then.revisit,
        Move::End(then) => then.revisit,
    }
}

/// Whether a move has stopped the traversal.
pub open spec fn stopped_after<T: RTreeObject, V>(next: Move<T, V>) -> bool {
    match next {
        Move::Go(_) => false,
        Move::End(then) => then.stopped,
    }
}

/// Whether `visits` are those of a move from `walk` to `next`, and account for what it takes out.
pub open spec fn is_made_of<T: RTreeObject, V: BacktrackingDrainVisitor<T>>(
    walk: Walk<T, V>,
    visits: Seq<Visit<T, V>>,
    next: Move<T, V>,
) -> bool {
    &&& is_history(walk.visitor, visits, visitor_after(next))
    &&& node_after(next).leaves().add(taken(visits)) == walk.node.leaves()
    &&& revisit_after(next) == (walk.revisit || asks_back(visits))
    &&& stops_last(visits, stopped_after(next))
}

pub proof fn lemma_made_of_none<T: RTreeObject, V: BacktrackingDrainVisitor<T>>(
    walk: Walk<T, V>,
    next: Move<T, V>,
)
    requires
        visitor_after(next) == walk.visitor,
        node_after(next).children == walk.node.children,
        revisit_after(next) == walk.revisit,
        !stopped_after(next),
    ensures
        is_made_of(walk, Seq::empty(), next),
{
    assert(walk.node.leaves().add(Multiset::empty()) =~= walk.node.leaves());
}

pub proof fn lemma_made_of_one<T: RTreeObject, V: BacktrackingDrainVisitor<T>>(
    walk: Walk<T, V>,
    visit: Visit<T, V>,
    next: Move<T, V>,
)
    requires
        0 <= walk.next < walk.node.children.len(),
        walk.node.children[walk.next] == Node::Leaf(visit.leaf),
        visit.before == walk.visitor,
        V::visited(visit.before, visit.leaf, visit.control, visit.after),
        after_leaf(walk, visit.control, visit.after, next),
    ensures
        is_made_of(walk, seq![visit], next),
{
    let visits = seq![visit];
    assert(visits.drop_last() =~= Seq::empty());
    assert(is_history(walk.visitor, Seq::<Visit<T, V>>::empty(), walk.visitor));
    assert(taken(Seq::<Visit<T, V>>::empty()) == Multiset::<T>::empty());
    lemma_leaves_swap_remove(walk.node.children, walk.next);
    assert(node_after(next).leaves().add(taken(visits)) =~= walk.node.leaves());
}

pub proof fn lemma_made_of_below<T: RTreeObject, V: BacktrackingDrainVisitor<T>>(
    walk: Walk<T, V>,
    child: Branch<T>,
    below: Walked<T, V>,
    visits: Seq<Visit<T, V>>,
    next: Move<T, V>,
)
    requires
        0 <= walk.next < walk.node.children.len(),
        walk.node.children[walk.next] == Node::Parent(child),
        moves(walk, Some(below), next),
        is_made_of(Walk::begin(child, walk.visitor), visits, Move::End(below)),
    ensures
        is_made_of(walk, visits, next),
{
    let back = walk.node.with_child(walk.next, Node::Parent(below.node));
    lemma_leaves_update(walk.node.children, walk.next, Node::Parent(below.node));
    lemma_leaves_swap_remove(back.children, walk.next);
    assert forall|t: T|
        node_after(next).leaves().add(taken(visits)).count(t) == walk.node.leaves().count(t) by {
        assert(back.leaves().add(child.leaves()).count(t) == walk.node.leaves().add(
            below.node.leaves(),
        ).count(t));
    }
    assert(node_after(next).leaves().add(taken(visits)) =~= walk.node.leaves());
}

pub proof fn lemma_made_of_both<T: RTreeObject, V: BacktrackingDrainVisitor<T>>(
    walk: Walk<T, V>,
    first: Seq<Visit<T, V>>,
    then: Walk<T, V>,
    second: Seq<Visit<T, V>>,
    next: Move<T, V>,
)
    requires
        is_made_of(walk, first, Move::Go(then)),
        is_made_of(then, second, next),
    ensures
        is_made_of(walk, first + second, next),
{
    let both = first + second;
    lemma_history_add(walk.visitor, first, then.visitor, second, visitor_after(next));
    lemma_asks_back_add(first, second);
    assert(node_after(next).leaves().add(taken(both)) =~= walk.node.leaves());
}

/// Whether each visitor that `holds` is true of unpacks exactly the subtrees that `parents` is true
/// of, and wants each leaf and each of these subtrees revisited.
pub open spec fn revisits_all<T: RTreeObject, V: BacktrackingDrainVisitor<T>>(
    holds: spec_fn(V) -> bool,
    parents: spec_fn(T::Envelope) -> bool,
) -> bool {
    &&& forall|visitor: V, envelope: T::Envelope, answer: bool| #[trigger]
        call_ensures(V::should_unpack_parent, (&visitor, &envelope), answer) && holds(visitor)
            ==> answer == parents(envelope)
    &&& forall|visitor: V, node: Node<T>, answer: bool| #[trigger]
        revisits(visitor, node, answer) && holds(visitor) ==> match node {
            Node::Leaf(_) => answer,
            Node::Parent(branch) => parents(branch.envelope) ==> answer,
        }
}

/// The choice of all objects.
pub open spec fn everything<T: RTreeObject>(parents: spec_fn(T::Envelope) -> bool) -> Choice<T> {
    Choice { parents, objects: |object: T| true }
}

/// Whether all leaves that can be reached at or below one of the leading `end` nodes are in `seen`.
spec fn is_seen<T: RTreeObject>(
    parents: spec_fn(T::Envelope) -> bool,
    nodes: Seq<Node<T>>,
    end: int,
    seen: Set<T>,
) -> bool {
    forall|i: int, leaf: T|
        0 <= i < end && i < nodes.len() && #[trigger] everything(parents).among(nodes[i]).count(
            leaf,
        ) > 0 ==> seen.contains(leaf)
}

pub proof fn lemma_among_one<T: RTreeObject>(choice: Choice<T>, nodes: Seq<Node<T>>, leaf: T)
    requires
        choice.among_all(nodes).count(leaf) > 0,
    ensures
        exists|i: int|
            0 <= i < nodes.len() && #[trigger] choice.among(nodes[i]).count(leaf) > 0,
    decreases nodes.len(),
{
    if nodes.len() > 0 {
        if choice.among(nodes.last()).count(leaf) == 0 {
            let front = nodes.drop_last();
            lemma_among_one(choice, front, leaf);
        }
    }
}

/// What cannot be reached at one of the leading nodes need not be seen.
proof fn lemma_seen_back<T: RTreeObject, V: BacktrackingDrainVisitor<T>>(
    holds: spec_fn(V) -> bool,
    parents: spec_fn(T::Envelope) -> bool,
    visitor: V,
    nodes: Seq<Node<T>>,
    end: int,
    seen: Set<T>,
)
    requires
        revisits_all(holds, parents),
        holds(visitor),
        forall|j: int|
            0 <= j < end && j < nodes.len() ==> revisits(visitor, #[trigger] nodes[j], false),
    ensures
        is_seen(parents, nodes, end, seen),
{
}

proof fn lemma_seen_leaf<T: RTreeObject, V: BacktrackingDrainVisitor<T>>(
    holds: spec_fn(V) -> bool,
    parents: spec_fn(T::Envelope) -> bool,
    walk: Walk<T, V>,
    so_far: Seq<Visit<T, V>>,
    visit: Visit<T, V>,
    then: Walk<T, V>,
)
    requires
        revisits_all(holds, parents),
        holds(visit.after),
        0 <= walk.next < walk.node.children.len(),
        walk.node.children[walk.next] == Node::Leaf(visit.leaf),
        after_leaf(walk, visit.control, visit.after, Move::Go(then)),
        is_seen(parents, walk.node.children, walk.next, kept_since(so_far)),
    ensures
        is_seen(parents, then.node.children, then.next, kept_since(so_far + seq![visit])),
{
    let now = so_far + seq![visit];
    let seen = kept_since(now);
    let nodes = then.node.children;
    assert(now.drop_last() =~= so_far);
    if visit.control is RemoveAndRevisit {
        lemma_seen_back(holds, parents, then.visitor, nodes, then.next, seen);
    }
}

proof fn lemma_seen_below<T: RTreeObject, V: BacktrackingDrainVisitor<T>>(
    holds: spec_fn(V) -> bool,
    parents: spec_fn(T::Envelope) -> bool,
    walk: Walk<T, V>,
    below: Walked<T, V>,
    so_far: Seq<Visit<T, V>>,
    visits: Seq<Visit<T, V>>,
    then: Walk<T, V>,
)
    requires
        revisits_all(holds, parents),
        holds(below.visitor),
        0 <= walk.next < walk.node.children.len(),
        walk.node.children[walk.next] is Parent,
        moves(walk, Some(below), Move::Go(then)),
        below.revisit == asks_back(visits),
        is_seen(parents, walk.node.children, walk.next, kept_since(so_far)),
        is_seen(
            parents,
            below.node.children,
            below.node.children.len() as int,
            kept_since(so_far + visits),
        ),
    ensures
        is_seen(parents, then.node.children, then.next, kept_since(so_far + visits)),
{
    let seen = kept_since(so_far + visits);
    let nodes = then.node.children;
    let choice = everything(parents);
    let end = if then.next < walk.next {
        then.next
    } else {
        walk.next
    };
    if below.revisit {
        lemma_seen_back(holds, parents, then.visitor, nodes, end, seen);
    } else {
        lemma_kept_since_add(so_far, visits);
    }
    assert forall|i: int, leaf: T|
        0 <= i < then.next && i < nodes.len() && #[trigger] choice.among(nodes[i]).count(leaf)
            > 0 implies seen.contains(leaf) by {
        if i >= end {
            lemma_among_one(choice, below.node.children, leaf);
        }
    }
}

/// A traversal is made of visits. If no visit stops it, and all is revisited that is asked for, it
/// has in the end seen each leaf that can be reached.
proof fn lemma_visits<T: RTreeObject, V: BacktrackingDrainVisitor<T>>(
    holds: spec_fn(V) -> bool,
    parents: spec_fn(T::Envelope) -> bool,
    trail: Trail<T, V>,
    walk: Walk<T, V>,
    end: Walked<T, V>,
    so_far: Seq<Visit<T, V>>,
) -> (visits: Seq<Visit<T, V>>)
    requires
        trail.joins(Move::Go(walk), end),
        0 <= walk.next <= walk.node.children.len(),
    ensures
        is_made_of(walk, visits, Move::End(end)),
        is_kept::<T, V>(holds) && holds(walk.visitor) ==> holds(end.visitor),
        is_kept::<T, V>(holds) && holds(walk.visitor) && revisits_all(holds, parents)
            && !end.stopped && is_seen(
            parents,
            walk.node.children,
            walk.next,
            kept_since(so_far),
        ) ==> is_seen(
            parents,
            end.node.children,
            end.node.children.len() as int,
            kept_since(so_far + visits),
        ),
    decreases trail,
{
    let watched = is_kept::<T, V>(holds) && holds(walk.visitor) && revisits_all(holds, parents)
        && is_seen(parents, walk.node.children, walk.next, kept_since(so_far));
    match trail {
        Trail::Over => Seq::empty(),
        Trail::Visit { next, rest } => {
            assert(rest.joins(next, end));
            let first = if walk.next < walk.node.children.len() && walk.node.children[walk.next]
                is Leaf {
                let leaf = walk.node.children[walk.next]->Leaf_0;
                let (control, visitor) = choose|control: VisitLeafControl, visitor: V| #[trigger]
                    V::visited(walk.visitor, leaf, control, visitor) && after_leaf(
                        walk,
                        control,
                        visitor,
                        next,
                    );
                let visit = Visit { before: walk.visitor, leaf, control, after: visitor };
                lemma_made_of_one(walk, visit, next);
                if let Move::Go(then) = next {
                    if watched {
                        lemma_seen_leaf(holds, parents, walk, so_far, visit, then);
                    }
                }
                seq![visit]
            } else {
                lemma_made_of_none(walk, next);
                Seq::empty()
            };
            match next {
                Move::Go(then) => {
                    let more = lemma_visits(holds, parents, *rest, then, end, so_far + first);
                    lemma_made_of_both(walk, first, then, more, Move::End(end));
                    assert(so_far + first + more =~= so_far + (first + more));
                    first + more
                },
                Move::End(_) => first,
            }
        },
        Trail::Descend { trail, below, next, rest } => {
            assert(rest.joins(next, end));
            let child = walk.node.children[walk.next]->Parent_0;
            let begin = Walk::begin(child, walk.visitor);
            let first = lemma_visits(holds, parents, *trail, begin, below, so_far);
            lemma_made_of_below(walk, child, below, first, next);
            match next {
                Move::Go(then) => {
                    if watched {
                        lemma_seen_below(holds, parents, walk, below, so_far, first, then);
                    }
                    let more = lemma_visits(holds, parents, *rest, then, end, so_far + first);
                    lemma_made_of_both(walk, first, then, more, Move::End(end));
                    assert(so_far + first + more =~= so_far + (first + more));
                    first + more
                },
                Move::End(_) => first,
            }
        },
    }
}

/// Whether `visits` are those of a traversal of the children of `node` with `visitor` that comes to
/// `end`: the leaves that it took out are those whose visit was answered with a removal, it was
/// stopped if and only if the last visit was answered with that, and it has asked to go back if and
/// only if one of them was.
pub open spec fn is_record<T: RTreeObject, V: BacktrackingDrainVisitor<T>>(
    node: Branch<T>,
    visitor: V,
    visits: Seq<Visit<T, V>>,
    end: Walked<T, V>,
) -> bool {
    &&& is_history(visitor, visits, end.visitor)
    &&& end.node.leaves().add(taken(visits)) == node.leaves()
    &&& end.removed == taken(visits).len()
    &&& end.revisit == asks_back(visits)
    &&& stops_last(visits, end.stopped)
}

pub proof fn lemma_everything<T: RTreeObject>(
    parents: spec_fn(T::Envelope) -> bool,
    nodes: Seq<Node<T>>,
)
    requires
        forall|envelope: T::Envelope| #[trigger] parents(envelope),
    ensures
        everything(parents).among_all(nodes) == leaves_of(nodes),
    decreases nodes, nodes.len(),
{
    if nodes.len() > 0 {
        lemma_everything(parents, nodes.drop_last());
        if let Node::Parent(branch) = nodes.last() {
            lemma_everything(parents, branch.children);
        }
        assert(everything(parents).among(nodes.last()) == nodes.last().leaves());
    }
}

proof fn lemma_record<T: RTreeObject, V: BacktrackingDrainVisitor<T>>(
    holds: spec_fn(V) -> bool,
    parents: spec_fn(T::Envelope) -> bool,
    node: Branch<T>,
    visitor: V,
    end: Walked<T, V>,
) -> (visits: Seq<Visit<T, V>>)
    requires
        traverses(node, visitor, end),
    ensures
        is_record(node, visitor, visits, end),
        is_kept::<T, V>(holds) && holds(visitor) && revisits_all(holds, parents) && !end.stopped
            ==> forall|leaf: T| #[trigger]
            everything(parents).among_all(end.node.children).count(leaf) > 0 ==> kept_since(
                visits,
            ).contains(leaf),
{
    let begin = Walk::begin(node, visitor);
    let trail = choose|trail: Trail<T, V>| #[trigger] trail.joins(Move::Go(begin), end);
    let visits = lemma_visits(holds, parents, trail, begin, end, Seq::empty());
    lemma_traverses(node, visitor, end);
    assert forall|leaf: T|
        is_kept::<T, V>(holds) && holds(visitor) && revisits_all(holds, parents) && !end.stopped
            && #[trigger] everything(parents).among_all(end.node.children).count(leaf)
            > 0 implies kept_since(visits).contains(leaf) by {
        lemma_among_one(everything(parents), end.node.children, leaf);
    }
    visits
}

/// A traversal is made of visits that account for it: the leaves that were there are those that are
/// left and those whose visit was answered with a removal.
pub proof fn law_traversal_is_made_of_visits<T: RTreeObject, V: BacktrackingDrainVisitor<T>>(
    node: Branch<T>,
    visitor: V,
    end: Walked<T, V>,
)
    requires
        traverses(node, visitor, end),
    ensures
        exists|visits: Seq<Visit<T, V>>| #[trigger] is_record(node, visitor, visits, end),
{
    lemma_record(|v: V| true, |e: T::Envelope| true, node, visitor, end);
}

/// Whether `visits` are those of a removal that leaves `after` and `left` behind: the leaves that
/// were there are those that are left and those whose visit was answered with a removal.
pub open spec fn is_record_of_removal<T: RTreeObject, V: BacktrackingDrainVisitor<T>>(
    before: Branch<T>,
    visitor: V,
    visits: Seq<Visit<T, V>>,
    removed: nat,
    after: Branch<T>,
    left: V,
) -> bool {
    &&& is_history(visitor, visits, left)
    &&& after.leaves().add(taken(visits)) == before.leaves()
    &&& removed == taken(visits).len()
}

/// A removal that visits nothing changes nothing.
pub proof fn lemma_no_visits<T: RTreeObject, V: BacktrackingDrainVisitor<T>>(
    root: Branch<T>,
    visitor: V,
) -> (visits: Seq<Visit<T, V>>)
    ensures
        is_record_of_removal(root, visitor, visits, 0, root, visitor),
        visits.len() == 0,
{
    let visits = Seq::<Visit<T, V>>::empty();
    assert(root.leaves().add(taken(visits)) =~= root.leaves());
    visits
}

/// The same of a removal.
pub proof fn law_removal_is_made_of_visits<T: RTreeObject, V: BacktrackingDrainVisitor<T>>(
    before: Branch<T>,
    visitor: V,
    removed: nat,
    after: Branch<T>,
    left: V,
)
    requires
        drains(before, visitor, removed, after, left),
    ensures
        exists|visits: Seq<Visit<T, V>>| #[trigger]
            is_record_of_removal(before, visitor, visits, removed, after, left),
{
    let visits = match lemma_drains(before, visitor, removed, after, left) {
        Some(end) => lemma_record(|v: V| true, |e: T::Envelope| true, before, visitor, end),
        None => lemma_no_visits(before, visitor),
    };
    assert(is_record_of_removal(before, visitor, visits, removed, after, left));
}

/// A traversal that was not stopped, with a visitor that wants all revisited that it unpacks, has
/// in the end seen each leaf that can be reached, since the last visit that asked to go back. If it
/// unpacks all, these are all leaves.
pub proof fn law_all_is_seen_since_the_last_return<
    T: RTreeObject,
    V: BacktrackingDrainVisitor<T>,
>(
    holds: spec_fn(V) -> bool,
    parents: spec_fn(T::Envelope) -> bool,
    node: Branch<T>,
    visitor: V,
    end: Walked<T, V>,
)
    requires
        is_kept::<T, V>(holds),
        holds(visitor),
        revisits_all(holds, parents),
        traverses(node, visitor, end),
        !end.stopped,
    ensures
        exists|visits: Seq<Visit<T, V>>| #[trigger]
            is_record(node, visitor, visits, end) && has_seen(parents, end.node, visits),
        (forall|envelope: T::Envelope| #[trigger] parents(envelope)) ==> exists|
            visits: Seq<Visit<T, V>>,
        | #[trigger]
            is_record(node, visitor, visits, end) && forall|leaf: T| #[trigger]
                end.node.leaves().count(leaf) > 0 ==> kept_since(visits).contains(leaf),
{
    lemma_record(holds, parents, node, visitor, end);
    if forall|envelope: T::Envelope| #[trigger] parents(envelope) {
        lemma_everything(parents, end.node.children);
    }
}

/// Whether each leaf below `node` that can be reached was visited and kept since the last visit
/// that asked to go back.
pub open spec fn has_seen<T: RTreeObject, V>(
    parents: spec_fn(T::Envelope) -> bool,
    node: Branch<T>,
    visits: Seq<Visit<T, V>>,
) -> bool {
    forall|leaf: T| #[trigger]
        everything(parents).among_all(node.children).count(leaf) > 0 ==> kept_since(
            visits,
        ).contains(leaf)
}

pub proof fn lemma_history_keeps<T: RTreeObject, V: BacktrackingDrainVisitor<T>>(
    holds: spec_fn(V) -> bool,
    visitor: V,
    visits: Seq<Visit<T, V>>,
    left: V,
)
    requires
        is_kept::<T, V>(holds),
        holds(visitor),
        is_history(visitor, visits, left),
    ensures
        holds(left),
    decreases visits.len(),
{
    if visits.len() > 0 {
        lemma_history_keeps(holds, visitor, visits.drop_last(), visits.last().before);
    }
}

/// A removal with a visitor that never stops and wants all revisited that it unpacks has in the end
/// seen each leaf that can be reached, since the last visit that asked to go back.
pub proof fn law_removal_sees_all_since_the_last_return<
    T: RTreeObject,
    V: BacktrackingDrainVisitor<T>,
>(
    holds: spec_fn(V) -> bool,
    parents: spec_fn(T::Envelope) -> bool,
    before: Branch<T>,
    visitor: V,
    removed: nat,
    after: Branch<T>,
    left: V,
)
    requires
        is_kept::<T, V>(holds),
        holds(visitor),
        revisits_all(holds, parents),
        forall|v: V, leaf: T, control: VisitLeafControl, then: V| #[trigger]
            V::visited(v, leaf, control, then) && holds(v) ==> !(control is Stop),
        drains(before, visitor, removed, after, left),
        parents(before.envelope),
    ensures
        exists|visits: Seq<Visit<T, V>>| #[trigger]
            is_record_of_removal(before, visitor, visits, removed, after, left) && has_seen(
                parents,
                after,
                visits,
            ),
{
    let visits = match lemma_drains(before, visitor, removed, after, left) {
        Some(end) => {
            let visits = lemma_record(holds, parents, before, visitor, end);
            if end.stopped {
                lemma_history_keeps(holds, visitor, visits.drop_last(), visits.last().before);
            }
            visits
        },
        None => lemma_no_visits(before, visitor),
    };
    assert(is_record_of_removal(before, visitor, visits, removed, after, left));
}

} // verus!
