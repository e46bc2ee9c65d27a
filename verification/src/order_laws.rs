//! In which order objects come.

use crate::drain_laws::{
    is_kept_by_steps, is_open, law_next_removes_only_what_it_yields, lemma_before_last_step,
    selects_by,
};
use crate::drain_steps::{
    advances, closed, holding, in_place, lemma_start, lemma_step, lemma_with_top, opens, placed,
    removed_in, start, steps, takes, with_top, Frame, Step,
};
use crate::into_iter::unrolled;
use crate::model::{all_full, Branch, Choice, Node};
use crate::object::RTreeObject;
use crate::once_laws::unpacks_by;
use crate::return_laws::{law_move_without_a_visit, law_visit_of_a_leaf, law_walk_of_a_subtree};
use crate::selection::SelectionFunction;
use crate::shape_laws::law_traversal_leaves_no_empty_subtree;
use crate::traversal::{after_leaf, lemma_traverses, moves, traverses, Move, Trail, Walk, Walked};
use crate::visit_laws::{
    everything, is_made_of, is_record, lemma_made_of_below, lemma_made_of_both, lemma_made_of_none,
    lemma_made_of_one, taken, Visit,
};
use crate::visitor::{BacktrackingDrainVisitor, VisitLeafControl};
use crate::visitor_laws::{is_kept, removes};
use vstd::prelude::*;

verus! {

/// The chosen objects at or below `node` that can be reached, from left to right.
pub open spec fn listed<T: RTreeObject>(choice: Choice<T>, node: Node<T>) -> Seq<T>
    decreases node, 0nat,
{
    match node {
        Node::Leaf(object) => if (choice.objects)(object) {
            seq![object]
        } else {
            Seq::empty()
        },
        Node::Parent(branch) => if (choice.parents)(branch.envelope) {
            listed_in(choice, branch.children)
        } else {
            Seq::empty()
        },
    }
}

/// The chosen objects at or below any of `nodes` that can be reached, from left to right.
pub open spec fn listed_in<T: RTreeObject>(choice: Choice<T>, nodes: Seq<Node<T>>) -> Seq<T>
    decreases nodes, nodes.len(),
{
    if nodes.len() == 0 {
        Seq::empty()
    } else {
        listed_in(choice, nodes.drop_last()) + listed(choice, nodes.last())
    }
}

/// All subtrees.
pub open spec fn all_subtrees<T: RTreeObject>() -> spec_fn(T::Envelope) -> bool {
    |envelope: T::Envelope| true
}

/// A whole tree is taken apart from right to left.
pub proof fn law_unrolled_is_from_right_to_left<T: RTreeObject>(nodes: Seq<Node<T>>)
    ensures
        unrolled(nodes) == listed_in(everything(all_subtrees::<T>()), nodes).reverse(),
    decreases nodes, nodes.len(),
{
    let choice = everything(all_subtrees::<T>());
    if nodes.len() > 0 {
        let front = listed_in(choice, nodes.drop_last());
        let back = listed(choice, nodes.last());
        law_unrolled_is_from_right_to_left(nodes.drop_last());
        if let Node::Parent(branch) = nodes.last() {
            law_unrolled_is_from_right_to_left(branch.children);
        }
        assert((front + back).reverse() =~= back.reverse() + front.reverse());
    }
}

proof fn lemma_listed_skip<T: RTreeObject>(choice: Choice<T>, nodes: Seq<Node<T>>, i: int)
    requires
        0 <= i < nodes.len(),
    ensures
        listed_in(choice, nodes.skip(i)) == listed(choice, nodes[i]) + listed_in(
            choice,
            nodes.skip(i + 1),
        ),
    decreases nodes.len(),
{
    let back = nodes.skip(i);
    if i == nodes.len() - 1 {
        assert(back.drop_last() =~= Seq::empty());
        assert(nodes.skip(i + 1) =~= Seq::empty());
    } else {
        let front = nodes.drop_last();
        lemma_listed_skip(choice, front, i);
        assert(back.drop_last() =~= front.skip(i));
        assert(nodes.skip(i + 1).drop_last() =~= front.skip(i + 1));
    }
}

/// The leaves that were visited up to the first removal, that one included.
pub open spec fn opening<T: RTreeObject, V>(visits: Seq<Visit<T, V>>) -> Seq<T>
    decreases visits.len(),
{
    if visits.len() == 0 {
        Seq::empty()
    } else if removes(visits[0].control) {
        seq![visits[0].leaf]
    } else {
        seq![visits[0].leaf] + opening(visits.drop_first())
    }
}

/// Whether one of the visits was answered with a removal.
pub open spec fn has_removal<T: RTreeObject, V>(visits: Seq<Visit<T, V>>) -> bool
    decreases visits.len(),
{
    visits.len() > 0 && (removes(visits[0].control) || has_removal(visits.drop_first()))
}

proof fn lemma_opening_add<T: RTreeObject, V>(
    first: Seq<Visit<T, V>>,
    second: Seq<Visit<T, V>>,
)
    ensures
        has_removal(first + second) == (has_removal(first) || has_removal(second)),
        has_removal(first) ==> opening(first + second) == opening(first),
        !has_removal(first) ==> opening(first + second) == opening(first) + opening(second),
    decreases first.len(),
{
    if first.len() > 0 {
        assert((first + second).drop_first() =~= first.drop_first() + second);
        lemma_opening_add(first.drop_first(), second);
    }
}

proof fn lemma_no_removal<T: RTreeObject, V>(visits: Seq<Visit<T, V>>)
    ensures
        has_removal(visits) == (taken(visits).len() > 0),
    decreases visits.len(),
{
    if visits.len() > 0 {
        let front = visits.drop_last();
        let last = seq![visits.last()];
        lemma_no_removal(front);
        lemma_opening_add(front, last);
        assert(front + last =~= visits);
        assert(last.drop_first() =~= Seq::empty());
        assert(!has_removal(Seq::<Visit<T, V>>::empty()));
    }
}

proof fn lemma_in_order<T: RTreeObject, V: BacktrackingDrainVisitor<T>>(
    holds: spec_fn(V) -> bool,
    parents: spec_fn(T::Envelope) -> bool,
    trail: Trail<T, V>,
    walk: Walk<T, V>,
    end: Walked<T, V>,
) -> (visits: Seq<Visit<T, V>>)
    requires
        is_kept::<T, V>(holds),
        holds(walk.visitor),
        unpacks_by(holds, parents),
        trail.joins(Move::Go(walk), end),
        0 <= walk.next <= walk.node.children.len(),
        all_full(walk.node.children),
    ensures
        holds(end.visitor),
        is_made_of(walk, visits, Move::End(end)),
        opening(visits).is_prefix_of(
            listed_in(everything(parents), walk.node.children.skip(walk.next)),
        ),
        !has_removal(visits) && !end.stopped ==> opening(visits) == listed_in(
            everything(parents),
            walk.node.children.skip(walk.next),
        ),
    decreases trail,
{
    let nodes = walk.node.children;
    let i = walk.next;
    let choice = everything(parents);
    if i < nodes.len() {
        lemma_listed_skip(choice, nodes, i);
    }
    match trail {
        Trail::Over => Seq::empty(),
        Trail::Visit { next, rest } => {
            assert(rest.joins(next, end));
            if i < nodes.len() && nodes[i] is Leaf {
                let leaf = nodes[i]->Leaf_0;
                let (control, visitor) = choose|control: VisitLeafControl, visitor: V| #[trigger]
                    V::visited(walk.visitor, leaf, control, visitor) && after_leaf(
                        walk,
                        control,
                        visitor,
                        next,
                    );
                let visit = Visit { before: walk.visitor, leaf, control, after: visitor };
                let first = seq![visit];
                lemma_made_of_one(walk, visit, next);
                law_visit_of_a_leaf(walk, control, visitor, next);
                assert(opening(first.drop_first()) =~= Seq::empty());
                match next {
                    Move::Go(then) => {
                        lemma_full_after_leaf(walk, control, visitor, then);
                        let more = lemma_in_order(holds, parents, *rest, then, end);
                        lemma_made_of_both(walk, first, then, more, Move::End(end));
                        lemma_opening_add(first, more);
                        first + more
                    },
                    Move::End(_) => first,
                }
            } else {
                let none = Seq::<Visit<T, V>>::empty();
                lemma_made_of_none(walk, next);
                law_move_without_a_visit(walk, next);
                match next {
                    Move::Go(then) => {
                        let more = lemma_in_order(holds, parents, *rest, then, end);
                        lemma_made_of_both(walk, none, then, more, Move::End(end));
                        more
                    },
                    Move::End(_) => none,
                }
            }
        },
        Trail::Descend { trail, below, next, rest } => {
            assert(rest.joins(next, end));
            let child = nodes[i]->Parent_0;
            let begin = Walk::begin(child, walk.visitor);
            assert((*trail).joins(Move::Go(begin), below));
            let first = lemma_in_order(holds, parents, *trail, begin, below);
            lemma_made_of_below(walk, child, below, first, next);
            law_walk_of_a_subtree(walk, child, below, next);
            law_traversal_leaves_no_empty_subtree(child, walk.visitor, below);
            lemma_traverses(child, walk.visitor, below);
            lemma_no_removal(first);
            assert(child.children.skip(0) =~= child.children);
            match next {
                Move::Go(then) => {
                    lemma_full_after_subtree(walk, below, then);
                    let more = lemma_in_order(holds, parents, *rest, then, end);
                    lemma_made_of_both(walk, first, then, more, Move::End(end));
                    lemma_opening_add(first, more);
                    if !has_removal(first) {
                        assert(then.node.children =~= nodes);
                    }
                    first + more
                },
                Move::End(_) => first,
            }
        },
    }
}

proof fn lemma_full_after_leaf<T: RTreeObject, V: BacktrackingDrainVisitor<T>>(
    walk: Walk<T, V>,
    control: VisitLeafControl,
    visitor: V,
    then: Walk<T, V>,
)
    requires
        0 <= walk.next < walk.node.children.len(),
        walk.node.children[walk.next] is Leaf,
        after_leaf(walk, control, visitor, Move::Go(then)),
        all_full(walk.node.children),
    ensures
        all_full(then.node.children),
        0 <= then.next <= then.node.children.len(),
{
    law_visit_of_a_leaf(walk, control, visitor, Move::Go(then));
}

proof fn lemma_full_after_subtree<T: RTreeObject, V: BacktrackingDrainVisitor<T>>(
    walk: Walk<T, V>,
    below: Walked<T, V>,
    then: Walk<T, V>,
)
    requires
        0 <= walk.next < walk.node.children.len(),
        walk.node.children[walk.next] is Parent,
        moves(walk, Some(below), Move::Go(then)),
        all_full(walk.node.children),
        all_full(below.node.children),
    ensures
        all_full(then.node.children),
        0 <= then.next <= then.node.children.len(),
        below.removed == 0 && !below.revisit ==> below.node.children.len() > 0 ==> then.next
            == walk.next + 1,
{
    let child = walk.node.children[walk.next]->Parent_0;
    law_walk_of_a_subtree(walk, child, below, Move::Go(then));
}

/// Up to the first removal the leaves that can be reached are visited from left to right, without
/// omission, if no subtree is empty. If nothing is removed and the traversal is not stopped, all of
/// them are.
pub proof fn law_leaves_are_visited_from_left_to_right<
    T: RTreeObject,
    V: BacktrackingDrainVisitor<T>,
>(
    holds: spec_fn(V) -> bool,
    parents: spec_fn(T::Envelope) -> bool,
    node: Branch<T>,
    visitor: V,
    end: Walked<T, V>,
)
    requires
        is_kept::<T, V>(holds),
        holds(visitor),
        unpacks_by(holds, parents),
        all_full(node.children),
        traverses(node, visitor, end),
    ensures
        exists|visits: Seq<Visit<T, V>>| #[trigger]
            is_record(node, visitor, visits, end) && opening(visits).is_prefix_of(
                listed_in(everything(parents), node.children),
            ) && (end.removed == 0 && !end.stopped ==> opening(visits) == listed_in(
                everything(parents),
                node.children,
            )),
{
    let begin = Walk::begin(node, visitor);
    let trail = choose|trail: Trail<T, V>| #[trigger] trail.joins(Move::Go(begin), end);
    let visits = lemma_in_order(holds, parents, trail, begin, end);
    lemma_traverses(node, visitor, end);
    lemma_no_removal(visits);
    assert(node.children.skip(0) =~= node.children);
    assert(is_record(node, visitor, visits, end));
}

/// The chosen objects that are ahead of a drain that has not removed anything, from left to right.
spec fn listed_ahead<T: RTreeObject>(choice: Choice<T>, frames: Seq<Frame<T>>) -> Seq<T>
    decreases frames.len(),
{
    let top = frames.last();
    let mine = if is_open(choice, top) {
        listed_in(choice, top.node.children.skip(top.next))
    } else {
        Seq::empty()
    };
    if frames.len() <= 1 {
        mine
    } else {
        let rest = frames.drop_last();
        let above = holding(rest.last(), Node::Parent(top.node));
        mine + listed_ahead(
            choice,
            with_top(rest, Frame { next: rest.last().next + 1, ..above }),
        )
    }
}

/// Whether a drain has not removed anything, with `goal` ahead of it.
spec fn is_ahead_of<T: RTreeObject>(
    choice: Choice<T>,
    goal: Seq<T>,
    frames: Seq<Frame<T>>,
) -> bool {
    &&& forall|i: int|
        0 <= i < frames.len() ==> (#[trigger] frames[i]).removed == 0 && all_full(
            frames[i].node.children,
        )
    &&& frames.len() > 1 ==> frames.last().node.children.len() > 0
    &&& listed_ahead(choice, frames) == goal
}

proof fn lemma_ahead_closed<T: RTreeObject>(
    choice: Choice<T>,
    goal: Seq<T>,
    frames: Seq<Frame<T>>,
)
    requires
        frames.len() > 0,
        in_place(frames),
        is_ahead_of(choice, goal, frames),
        !is_open(choice, frames.last()) || frames.last().next
            >= frames.last().node.children.len(),
    ensures
        match closed(frames, true) {
            Step::Move(then) => is_ahead_of(choice, goal, then),
            Step::Yield(_, _) => false,
            Step::Finish(_, _) => goal.len() == 0,
        },
{
    if let Step::Move(then) = closed(frames, true) {
        let rest = frames.drop_last();
        lemma_with_top(rest, then.last());
    }
}

proof fn lemma_ahead_step<T: RTreeObject, R: SelectionFunction<T>>(
    choice: Choice<T>,
    function: R,
    goal: Seq<T>,
    frames: Seq<Frame<T>>,
    step: Step<T>,
)
    requires
        selects_by(function, choice),
        frames.len() > 0,
        in_place(frames),
        is_ahead_of(choice, goal, frames),
        steps(function, frames, step),
    ensures
        match step {
            Step::Move(then) => is_ahead_of(choice, goal, then),
            Step::Yield(object, _) => goal.len() > 0 && goal[0] == object,
            Step::Finish(_, _) => goal.len() == 0,
        },
{
    let top = frames[frames.len() - 1];
    let children = top.node.children;
    let i = top.next;
    if opens(function, top, true) && i < children.len() && takes(function, frames, step) {
        lemma_listed_skip(choice, children, i);
        let without = Frame { node: top.node.without_child(i), ..top };
        match children[i] {
            Node::Parent(child) => {
                let shorter = with_top(frames, without);
                let new = Frame { node: child, next: 0, removed: 0 };
                let then = shorter.push(new);
                lemma_with_top(frames, without);
                assert(then.drop_last() =~= shorter);
                assert(child.children.skip(0) =~= child.children);
                let past = Frame { next: i + 1, ..top };
                assert(placed(without.node.children, i, children[i]) =~= children);
                assert(with_top(shorter, Frame { next: i + 1, ..holding(without, children[i]) })
                    =~= with_top(frames, past));
                lemma_with_top(frames, past);
                let a = listed(choice, children[i]);
                let b = listed_in(choice, children.skip(i + 1));
                let on = with_top(frames, past);
                assert(listed_ahead(choice, then) =~= a + listed_ahead(choice, on));
                if frames.len() > 1 {
                    let rest = frames.drop_last();
                    let back = holding(rest.last(), Node::Parent(top.node));
                    let c = listed_ahead(
                        choice,
                        with_top(rest, Frame { next: rest.last().next + 1, ..back }),
                    );
                    assert(a + b + c =~= a + (b + c));
                }
            },
            Node::Leaf(leaf) => {
                let passed = Frame { next: i + 1, ..top };
                lemma_with_top(frames, passed);
            },
        }
    } else {
        lemma_ahead_closed(choice, goal, frames);
    }
}

/// The first object that a drain yields is the leftmost one of the selected ones that can be
/// reached, if no subtree is empty. It yields none only if there is none.
pub proof fn law_first_object_is_the_leftmost<T: RTreeObject, R: SelectionFunction<T>>(
    choice: Choice<T>,
    function: R,
    root: Branch<T>,
    end: Step<T>,
)
    requires
        selects_by(function, choice),
        all_full(root.children),
        advances(function, start(root), end),
    ensures
        match end {
            Step::Move(_) => false,
            Step::Yield(object, _) => {
                let all = listed(choice, Node::Parent(root));
                all.len() > 0 && all[0] == object
            },
            Step::Finish(_, _) => listed(choice, Node::Parent(root)).len() == 0,
        },
{
    let goal = listed(choice, Node::Parent(root));
    let holds = |frames: Seq<Frame<T>>|
        removed_in(frames) > 0 || is_ahead_of(choice, goal, frames);
    assert(is_kept_by_steps(function, holds)) by {
        assert forall|frames: Seq<Frame<T>>, step: Step<T>|
            frames.len() > 0 && in_place(frames) && holds(frames) && #[trigger] steps(
                function,
                frames,
                step,
            ) implies match step {
            Step::Move(then) => holds(then),
            Step::Yield(_, then) => holds(then),
            Step::Finish(_, _) => true,
        } by {
            lemma_step(function, frames, step);
            if is_ahead_of(choice, goal, frames) {
                lemma_ahead_step(choice, function, goal, frames, step);
            }
        }
    }
    lemma_start(root);
    assert(root.children.skip(0) =~= root.children);
    law_next_removes_only_what_it_yields(function, start(root), end);
    let last = lemma_before_last_step(function, holds, start(root), end);
    lemma_step(function, last, end);
    lemma_ahead_step(choice, function, goal, last, end);
}

} // verus!
