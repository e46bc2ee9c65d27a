//! How often a removal visits a leaf.

use crate::model::{swap_removed, Branch, Choice, Node};
use crate::object::RTreeObject;
use crate::traversal::{
    after_leaf, drains, lemma_drains, lemma_traverses, moves, revisits, traverses, Move, Trail,
    Walk, Walked,
};
use crate::visit_laws::{
    asks_back, everything, is_made_of, is_record, is_record_of_removal, lemma_asks_back_add,
    lemma_everything, lemma_history_keeps, lemma_made_of_below, lemma_made_of_both,
    lemma_made_of_none, lemma_made_of_one, lemma_no_visits, Visit,
};
use crate::visitor::{BacktrackingDrainVisitor, VisitLeafControl};
use crate::visitor_laws::{
    decides_by, is_kept, law_never_goes_back_uncalled, law_traversal_removes_all_that_is_chosen,
};
use vstd::multiset::Multiset;
use vstd::prelude::*;

verus! {

/// The leaves that were visited, each as often as it was.
pub open spec fn visited_in<T: RTreeObject, V>(visits: Seq<Visit<T, V>>) -> Multiset<T>
    decreases visits.len(),
{
    if visits.len() == 0 {
        Multiset::empty()
    } else {
        visited_in(visits.drop_last()).insert(visits.last().leaf)
    }
}

/// Whether no visitor that `holds` is true of wants anything revisited.
pub open spec fn wants_nothing_revisited<T: RTreeObject, V: BacktrackingDrainVisitor<T>>(
    holds: spec_fn(V) -> bool,
) -> bool {
    forall|visitor: V, node: Node<T>| holds(visitor) ==> !#[trigger] revisits(visitor, node, true)
}

/// Whether no visitor that `holds` is true of asks to go back.
pub open spec fn never_asks_back<T: RTreeObject, V: BacktrackingDrainVisitor<T>>(
    holds: spec_fn(V) -> bool,
) -> bool {
    forall|before: V, leaf: T, control: VisitLeafControl, after: V| #[trigger]
        V::visited(before, leaf, control, after) && holds(before) ==> !(
        control is RemoveAndRevisit)
}

/// Whether no visitor that `holds` is true of stops.
pub open spec fn never_stops<T: RTreeObject, V: BacktrackingDrainVisitor<T>>(
    holds: spec_fn(V) -> bool,
) -> bool {
    forall|before: V, leaf: T, control: VisitLeafControl, after: V| #[trigger]
        V::visited(before, leaf, control, after) && holds(before) ==> !(control is Stop)
}

/// Whether each visitor that `holds` is true of unpacks exactly the subtrees that `parents` is true
/// of.
pub open spec fn unpacks_by<T: RTreeObject, V: BacktrackingDrainVisitor<T>>(
    holds: spec_fn(V) -> bool,
    parents: spec_fn(T::Envelope) -> bool,
) -> bool {
    forall|visitor: V, envelope: T::Envelope, answer: bool| #[trigger]
        call_ensures(V::should_unpack_parent, (&visitor, &envelope), answer) && holds(visitor)
            ==> answer == parents(envelope)
}

/// All subtrees.
spec fn all_parents<T: RTreeObject>() -> spec_fn(T::Envelope) -> bool {
    |envelope: T::Envelope| true
}

/// What can be reached at or below the children that are not dealt with.
spec fn ahead<T: RTreeObject>(
    parents: spec_fn(T::Envelope) -> bool,
    nodes: Seq<Node<T>>,
    next: int,
) -> Multiset<T> {
    everything(parents).among_all(nodes.skip(next))
}

proof fn lemma_visited_add<T: RTreeObject, V>(
    first: Seq<Visit<T, V>>,
    second: Seq<Visit<T, V>>,
)
    ensures
        visited_in(first + second) == visited_in(first).add(visited_in(second)),
    decreases second.len(),
{
    if second.len() > 0 {
        assert((first + second).drop_last() =~= first + second.drop_last());
        lemma_visited_add(first, second.drop_last());
    }
}

/// Where a node is taken out, the others that are not dealt with are still ahead.
proof fn lemma_ahead_removed<T: RTreeObject>(
    parents: spec_fn(T::Envelope) -> bool,
    nodes: Seq<Node<T>>,
    i: int,
)
    requires
        0 <= i < nodes.len(),
    ensures
        ahead(parents, swap_removed(nodes, i), i) == ahead(parents, nodes, i + 1),
{
    let choice = everything(parents);
    let back = nodes.skip(i);
    assert(swap_removed(nodes, i).skip(i) =~= swap_removed(back, 0));
    choice.lemma_swap_remove(back, 0);
    choice.lemma_skip(nodes, i);
    let one = choice.among(nodes[i]);
    let rest = choice.among_all(swap_removed(back, 0));
    assert(rest.add(one).sub(one) =~= rest);
}

/// A move that does not go back leaves ahead what comes after the child that was next.
proof fn lemma_ahead_move<T: RTreeObject, V: BacktrackingDrainVisitor<T>>(
    parents: spec_fn(T::Envelope) -> bool,
    walk: Walk<T, V>,
    below: Option<Walked<T, V>>,
    then: Walk<T, V>,
)
    requires
        moves(walk, below, Move::Go(then)),
        0 <= walk.next <= walk.node.children.len(),
        then.next >= walk.next,
    ensures
        walk.next < walk.node.children.len(),
        then.next <= then.node.children.len(),
        ahead(parents, then.node.children, then.next) == ahead(
            parents,
            walk.node.children,
            walk.next + 1,
        ),
{
    let nodes = walk.node.children;
    let i = walk.next;
    lemma_ahead_removed(parents, nodes, i);
    if let Some(below) = below {
        let back = nodes.update(i, Node::Parent(below.node));
        assert(back.skip(i + 1) =~= nodes.skip(i + 1));
        assert(swap_removed(back, i) =~= swap_removed(nodes, i));
    }
}

/// A traversal that goes straight on visits no leaf more often than it is ahead.
proof fn lemma_once<T: RTreeObject, V: BacktrackingDrainVisitor<T>>(
    holds: spec_fn(V) -> bool,
    parents: spec_fn(T::Envelope) -> bool,
    trail: Trail<T, V>,
    walk: Walk<T, V>,
    end: Walked<T, V>,
) -> (visits: Seq<Visit<T, V>>)
    requires
        is_kept::<T, V>(holds),
        holds(walk.visitor),
        wants_nothing_revisited::<T, V>(holds) || never_asks_back::<T, V>(holds),
        trail.joins(Move::Go(walk), end),
        0 <= walk.next <= walk.node.children.len(),
    ensures
        holds(end.visitor),
        is_made_of(walk, visits, Move::End(end)),
        never_asks_back::<T, V>(holds) ==> !asks_back(visits),
        visited_in(visits).subset_of(ahead(all_parents::<T>(), walk.node.children, walk.next)),
        unpacks_by(holds, parents) && !end.stopped ==> visited_in(visits) == ahead(
            parents,
            walk.node.children,
            walk.next,
        ),
    decreases trail,
{
    let nodes = walk.node.children;
    let i = walk.next;
    let all = all_parents::<T>();
    if i < nodes.len() {
        everything(parents).lemma_skip(nodes, i);
        everything(all).lemma_skip(nodes, i);
    }
    match trail {
        Trail::Over => Seq::empty(),
        Trail::Visit { next, rest } => {
            assert(rest.joins(next, end));
            let first = if i < nodes.len() && nodes[i] is Leaf {
                let leaf = nodes[i]->Leaf_0;
                let (control, visitor) = choose|control: VisitLeafControl, visitor: V| #[trigger]
                    V::visited(walk.visitor, leaf, control, visitor) && after_leaf(
                        walk,
                        control,
                        visitor,
                        next,
                    );
                let visit = Visit { before: walk.visitor, leaf, control, after: visitor };
                lemma_made_of_one(walk, visit, next);
                let visits = seq![visit];
                assert(visits.drop_last() =~= Seq::empty());
                assert(visited_in(Seq::<Visit<T, V>>::empty()) == Multiset::<T>::empty());
                visits
            } else {
                lemma_made_of_none(walk, next);
                Seq::empty()
            };
            match next {
                Move::Go(then) => {
                    if wants_nothing_revisited::<T, V>(holds) {
                        law_never_goes_back_uncalled(walk, None, then);
                    }
                    lemma_ahead_move(parents, walk, None, then);
                    lemma_ahead_move(all, walk, None, then);
                    let more = lemma_once(holds, parents, *rest, then, end);
                    lemma_made_of_both(walk, first, then, more, Move::End(end));
                    lemma_visited_add(first, more);
                    lemma_asks_back_add(first, more);
                    first + more
                },
                Move::End(_) => first,
            }
        },
        Trail::Descend { trail, below, next, rest } => {
            assert(rest.joins(next, end));
            let child = nodes[i]->Parent_0;
            let begin = Walk::begin(child, walk.visitor);
            let first = lemma_once(holds, parents, *trail, begin, below);
            lemma_made_of_below(walk, child, below, first, next);
            assert(child.children.skip(0) =~= child.children);
            match next {
                Move::Go(then) => {
                    if wants_nothing_revisited::<T, V>(holds) {
                        law_never_goes_back_uncalled(walk, Some(below), then);
                    }
                    lemma_ahead_move(parents, walk, Some(below), then);
                    lemma_ahead_move(all, walk, Some(below), then);
                    let more = lemma_once(holds, parents, *rest, then, end);
                    lemma_made_of_both(walk, first, then, more, Move::End(end));
                    lemma_visited_add(first, more);
                    lemma_asks_back_add(first, more);
                    first + more
                },
                Move::End(_) => first,
            }
        },
    }
}

proof fn lemma_once_record<T: RTreeObject, V: BacktrackingDrainVisitor<T>>(
    holds: spec_fn(V) -> bool,
    parents: spec_fn(T::Envelope) -> bool,
    node: Branch<T>,
    visitor: V,
    end: Walked<T, V>,
) -> (visits: Seq<Visit<T, V>>)
    requires
        is_kept::<T, V>(holds),
        holds(visitor),
        wants_nothing_revisited::<T, V>(holds) || never_asks_back::<T, V>(holds),
        traverses(node, visitor, end),
    ensures
        is_record(node, visitor, visits, end),
        visited_in(visits).subset_of(node.leaves()),
        unpacks_by(holds, parents) && !end.stopped ==> visited_in(visits) == everything(
            parents,
        ).among_all(node.children),
{
    let begin = Walk::begin(node, visitor);
    let trail = choose|trail: Trail<T, V>| #[trigger] trail.joins(Move::Go(begin), end);
    let visits = lemma_once(holds, parents, trail, begin, end);
    lemma_traverses(node, visitor, end);
    assert(node.children.skip(0) =~= node.children);
    lemma_everything(all_parents::<T>(), node.children);
    visits
}

/// With a visitor that wants nothing revisited, or never asks to go back, a traversal visits each
/// leaf at most once: no leaf more often than it is there.
pub proof fn law_each_leaf_is_visited_at_most_once<
    T: RTreeObject,
    V: BacktrackingDrainVisitor<T>,
>(holds: spec_fn(V) -> bool, node: Branch<T>, visitor: V, end: Walked<T, V>)
    requires
        is_kept::<T, V>(holds),
        holds(visitor),
        wants_nothing_revisited::<T, V>(holds) || never_asks_back::<T, V>(holds),
        traverses(node, visitor, end),
    ensures
        exists|visits: Seq<Visit<T, V>>| #[trigger]
            is_record(node, visitor, visits, end) && visited_in(visits).subset_of(node.leaves()),
{
    lemma_once_record(holds, all_parents::<T>(), node, visitor, end);
}

/// If that visitor unpacks subtrees by their envelope alone and the traversal was not stopped, each
/// leaf that can be reached is visited exactly once, as often as it is there. If it unpacks all,
/// these are all leaves.
pub proof fn law_each_leaf_is_visited_exactly_once<
    T: RTreeObject,
    V: BacktrackingDrainVisitor<T>,
>(
    holds: spec_fn(V) -> bool,
    parents: spec_fn(T::Envelope) -> bool,
    node: Branch<T>,
    visitor: V,
    end: Walked<T, V>,
)
    requires
        is_kept::<T, V>(holds),
        holds(visitor),
        wants_nothing_revisited::<T, V>(holds) || never_asks_back::<T, V>(holds),
        unpacks_by(holds, parents),
        traverses(node, visitor, end),
        !end.stopped,
    ensures
        exists|visits: Seq<Visit<T, V>>| #[trigger]
            is_record(node, visitor, visits, end) && visited_in(visits) == everything(
                parents,
            ).among_all(node.children),
        (forall|envelope: T::Envelope| #[trigger] parents(envelope)) ==> everything(
            parents,
        ).among_all(node.children) == node.leaves(),
{
    lemma_once_record(holds, parents, node, visitor, end);
    if forall|envelope: T::Envelope| #[trigger] parents(envelope) {
        lemma_everything(parents, node.children);
    }
}

/// The same of a traversal with a visitor that only keeps and removes, by a choice.
pub proof fn law_traversal_by_choice_visits_exactly_once<
    T: RTreeObject,
    V: BacktrackingDrainVisitor<T>,
>(holds: spec_fn(V) -> bool, choice: Choice<T>, node: Branch<T>, visitor: V, end: Walked<T, V>)
    requires
        is_kept::<T, V>(holds),
        holds(visitor),
        decides_by(holds, choice),
        never_asks_back::<T, V>(holds),
        traverses(node, visitor, end),
    ensures
        !end.stopped,
        exists|visits: Seq<Visit<T, V>>| #[trigger]
            is_record(node, visitor, visits, end) && visited_in(visits) == everything(
                choice.parents,
            ).among_all(node.children),
{
    law_traversal_removes_all_that_is_chosen(holds, choice, node, visitor, end);
    law_each_leaf_is_visited_exactly_once(holds, choice.parents, node, visitor, end);
}

/// With a visitor that wants nothing revisited, or never asks to go back, a removal visits each
/// leaf at most once: no leaf more often than it is there.
pub proof fn law_removal_visits_each_leaf_at_most_once<
    T: RTreeObject,
    V: BacktrackingDrainVisitor<T>,
>(
    holds: spec_fn(V) -> bool,
    before: Branch<T>,
    visitor: V,
    removed: nat,
    after: Branch<T>,
    left: V,
)
    requires
        is_kept::<T, V>(holds),
        holds(visitor),
        wants_nothing_revisited::<T, V>(holds) || never_asks_back::<T, V>(holds),
        drains(before, visitor, removed, after, left),
    ensures
        exists|visits: Seq<Visit<T, V>>| #[trigger]
            is_record_of_removal(before, visitor, visits, removed, after, left) && visited_in(
                visits,
            ).subset_of(before.leaves()),
{
    let visits = match lemma_drains(before, visitor, removed, after, left) {
        Some(end) => lemma_once_record(holds, all_parents::<T>(), before, visitor, end),
        None => lemma_no_visits(before, visitor),
    };
    assert(is_record_of_removal(before, visitor, visits, removed, after, left));
}

/// If that visitor never stops and unpacks subtrees by their envelope alone, each leaf that can be
/// reached is visited exactly once, as often as it is there.
pub proof fn law_removal_visits_each_leaf_exactly_once<
    T: RTreeObject,
    V: BacktrackingDrainVisitor<T>,
>(
    holds: spec_fn(V) -> bool,
    parents: spec_fn(T::Envelope) -> bool,
    before: Branch<T>,
    visitor: V,
    removed: nat,
    after: Branch<T>,
    left: V,
)
    requires
        is_kept::<T, V>(holds),
        holds(visitor),
        wants_nothing_revisited::<T, V>(holds) || never_asks_back::<T, V>(holds),
        never_stops::<T, V>(holds),
        unpacks_by(holds, parents),
        drains(before, visitor, removed, after, left),
    ensures
        exists|visits: Seq<Visit<T, V>>| #[trigger]
            is_record_of_removal(before, visitor, visits, removed, after, left) && visited_in(
                visits,
            ) == everything(parents).among(Node::Parent(before)),
{
    let visits = match lemma_drains(before, visitor, removed, after, left) {
        Some(end) => {
            let visits = lemma_once_record(holds, parents, before, visitor, end);
            if end.stopped {
                lemma_history_keeps(holds, visitor, visits.drop_last(), visits.last().before);
            }
            visits
        },
        None => lemma_no_visits(before, visitor),
    };
    assert(is_record_of_removal(before, visitor, visits, removed, after, left));
}

/// The same of a removal with a visitor that only keeps and removes, by a choice.
pub proof fn law_removal_by_choice_visits_exactly_once<
    T: RTreeObject,
    V: BacktrackingDrainVisitor<T>,
>(
    holds: spec_fn(V) -> bool,
    choice: Choice<T>,
    before: Branch<T>,
    visitor: V,
    removed: nat,
    after: Branch<T>,
    left: V,
)
    requires
        is_kept::<T, V>(holds),
        holds(visitor),
        decides_by(holds, choice),
        never_asks_back::<T, V>(holds),
        drains(before, visitor, removed, after, left),
    ensures
        exists|visits: Seq<Visit<T, V>>| #[trigger]
            is_record_of_removal(before, visitor, visits, removed, after, left) && visited_in(
                visits,
            ) == everything(choice.parents).among(Node::Parent(before)),
{
    law_removal_visits_each_leaf_exactly_once(
        holds,
        choice.parents,
        before,
        visitor,
        removed,
        after,
        left,
    );
}

} // verus!
