//! What holds of a visitor and of a selection function that choose the same.

use crate::drain_laws::{
    is_kept_by_steps, is_open, law_drain_yields_all_selected,
    law_finish_removes_only_what_was_yielded, lemma_after_yields, lemma_before_last_step,
    selects_by, yields,
};
use crate::drain_steps::{
    advances, closed, in_place, lemma_start, lemma_with_top, opens, placed, start, steps, takes,
    with_top, Frame, Step,
};
use crate::model::{all_full, envelope_of, swap_removed, Branch, Choice, Node};
use crate::object::{joins_in_any_order, Envelope, RTreeObject};
use crate::repeat_laws::{
    is_settled, is_spent, lemma_spends_step, lemma_traversal_settles, spends_in,
};
use crate::selection::SelectionFunction;
use crate::shape_laws::{full_in, law_traversal_leaves_no_empty_subtree, lemma_full_is_kept};
use crate::traversal::{
    drains, lemma_drains, lemma_traversal_is_settled, moves, traverses, Move, Trail, Walk, Walked,
};
use crate::visitor::BacktrackingDrainVisitor;
use crate::visitor_laws::{
    decides_by, is_kept, law_removes_all_that_is_chosen, law_traversal_removes_all_that_is_chosen,
};
use vstd::multiset::Multiset;
use vstd::prelude::*;

verus! {

/// The envelope around all of `envelopes`, merged in from the first to the last.
pub open spec fn merged<E: Envelope>(envelopes: Seq<E>) -> E {
    envelopes.fold_left(E::nothing(), |a: E, b: E| a.join(b))
}

/// The envelope of what is left of `node` when the chosen objects that can be reached are removed:
/// none if nothing is left, the one that is recorded if nothing is removed.
pub open spec fn envelope_left<T: RTreeObject>(choice: Choice<T>, node: Node<T>) -> Seq<
    T::Envelope,
>
    decreases node, 0nat,
{
    match node {
        Node::Leaf(object) => if (choice.objects)(object) {
            Seq::empty()
        } else {
            seq![object.bounds()]
        },
        Node::Parent(branch) => if !(choice.parents)(branch.envelope) || choice.among_all(
            branch.children,
        ).len() == 0 {
            seq![branch.envelope]
        } else if envelopes_left(choice, branch.children).len() == 0 {
            Seq::empty()
        } else {
            seq![merged(envelopes_left(choice, branch.children))]
        },
    }
}

/// The envelopes of what is left of `nodes`.
pub open spec fn envelopes_left<T: RTreeObject>(choice: Choice<T>, nodes: Seq<Node<T>>) -> Seq<
    T::Envelope,
>
    decreases nodes, nodes.len(),
{
    if nodes.len() == 0 {
        Seq::empty()
    } else {
        envelopes_left(choice, nodes.drop_last()) + envelope_left(choice, nodes.last())
    }
}

/// The envelope of the root when the chosen objects that can be reached are removed.
pub open spec fn root_envelope_left<T: RTreeObject>(
    choice: Choice<T>,
    root: Branch<T>,
) -> T::Envelope {
    if !(choice.parents)(root.envelope) || choice.among_all(root.children).len() == 0 {
        root.envelope
    } else {
        merged(envelopes_left(choice, root.children))
    }
}

proof fn lemma_merged_in_any_order<E: Envelope>(first: Seq<E>, second: Seq<E>)
    requires
        joins_in_any_order::<E>(),
        first.to_multiset() == second.to_multiset(),
    ensures
        merged(first) == merged(second),
        first.len() == second.len(),
{
    broadcast use vstd::seq_lib::group_to_multiset_ensures;

    let f = |a: E, b: E| a.join(b);
    vstd::seq_lib::lemma_fold_left_permutation(first, second, f, E::nothing());
    assert(first.to_multiset().len() == first.len());
}

proof fn lemma_add<E>(first: Seq<E>, second: Seq<E>)
    ensures
        (first + second).to_multiset() == first.to_multiset().add(second.to_multiset()),
{
    vstd::seq_lib::lemma_multiset_commutative(first, second);
}

proof fn lemma_left_update<T: RTreeObject>(
    choice: Choice<T>,
    nodes: Seq<Node<T>>,
    i: int,
    node: Node<T>,
)
    requires
        0 <= i < nodes.len(),
    ensures
        envelopes_left(choice, nodes.update(i, node)).to_multiset().add(
            envelope_left(choice, nodes[i]).to_multiset(),
        ) == envelopes_left(choice, nodes).to_multiset().add(
            envelope_left(choice, node).to_multiset(),
        ),
    decreases nodes.len(),
{
    let after = nodes.update(i, node);
    let front = nodes.drop_last();
    lemma_add(envelopes_left(choice, front), envelope_left(choice, nodes.last()));
    lemma_add(envelopes_left(choice, after.drop_last()), envelope_left(choice, after.last()));
    if i == nodes.len() - 1 {
        assert(after.drop_last() =~= front);
    } else {
        assert(after.drop_last() =~= front.update(i, node));
        lemma_left_update(choice, front, i, node);
    }
    let left = envelopes_left(choice, after).to_multiset().add(
        envelope_left(choice, nodes[i]).to_multiset(),
    );
    let right = envelopes_left(choice, nodes).to_multiset().add(
        envelope_left(choice, node).to_multiset(),
    );
    assert forall|e: T::Envelope| left.count(e) == right.count(e) by {
        if i < nodes.len() - 1 {
            assert(envelopes_left(choice, front.update(i, node)).to_multiset().add(
                envelope_left(choice, front[i]).to_multiset(),
            ).count(e) == envelopes_left(choice, front).to_multiset().add(
                envelope_left(choice, node).to_multiset(),
            ).count(e));
        }
    }
}

proof fn lemma_left_swap_remove<T: RTreeObject>(choice: Choice<T>, nodes: Seq<Node<T>>, i: int)
    requires
        0 <= i < nodes.len(),
    ensures
        envelopes_left(choice, swap_removed(nodes, i)).to_multiset().add(
            envelope_left(choice, nodes[i]).to_multiset(),
        ) == envelopes_left(choice, nodes).to_multiset(),
{
    let last = nodes.last();
    let after = nodes.update(i, last);
    let rest = swap_removed(nodes, i);
    lemma_left_update(choice, nodes, i, last);
    lemma_add(envelopes_left(choice, rest), envelope_left(choice, last));
    let left = envelopes_left(choice, rest).to_multiset().add(
        envelope_left(choice, nodes[i]).to_multiset(),
    );
    assert forall|e: T::Envelope|
        left.count(e) == envelopes_left(choice, nodes).to_multiset().count(e) by {
        assert(envelopes_left(choice, after).to_multiset().add(
            envelope_left(choice, nodes[i]).to_multiset(),
        ).count(e) == envelopes_left(choice, nodes).to_multiset().add(
            envelope_left(choice, last).to_multiset(),
        ).count(e));
    }
}

/// Whether nothing chosen can be reached at or below `node`, so that its envelope stays.
spec fn is_done<T: RTreeObject>(choice: Choice<T>, node: Node<T>) -> bool {
    &&& choice.among(node) == Multiset::<T>::empty()
    &&& envelope_left(choice, node) == seq![node.envelope()]
}

proof fn lemma_all_done<T: RTreeObject>(choice: Choice<T>, nodes: Seq<Node<T>>)
    requires
        forall|i: int| 0 <= i < nodes.len() ==> is_done(choice, #[trigger] nodes[i]),
    ensures
        choice.among_all(nodes) == Multiset::<T>::empty(),
        envelopes_left(choice, nodes).len() == nodes.len(),
        merged(envelopes_left(choice, nodes)) == envelope_of(nodes),
    decreases nodes.len(),
{
    if nodes.len() > 0 {
        let front = nodes.drop_last();
        lemma_all_done(choice, front);
        let left = envelopes_left(choice, nodes);
        assert(left.drop_last() =~= envelopes_left(choice, front));
    }
}

proof fn lemma_settled_is_done<T: RTreeObject>(choice: Choice<T>, node: Node<T>)
    requires
        is_settled(choice, node),
    ensures
        is_done(choice, node),
    decreases node,
{
    if let Node::Parent(branch) = node {
        if (choice.parents)(branch.envelope) {
            assert forall|i: int| 0 <= i < branch.children.len() implies is_done(
                choice,
                #[trigger] branch.children[i],
            ) by {
                lemma_settled_is_done(choice, branch.children[i]);
            }
            lemma_all_done(choice, branch.children);
        }
    }
}

proof fn lemma_spent_is_done<T: RTreeObject>(choice: Choice<T>, node: Node<T>)
    requires
        is_spent(choice, node),
    ensures
        is_done(choice, node),
    decreases node,
{
    if let Node::Parent(branch) = node {
        if (choice.parents)(branch.envelope) {
            assert forall|i: int| 0 <= i < branch.children.len() implies is_done(
                choice,
                #[trigger] branch.children[i],
            ) by {
                lemma_spent_is_done(choice, branch.children[i]);
            }
            lemma_all_done(choice, branch.children);
        }
    }
}

/// What is left of a subtree after a traversal that unpacks it has the envelope that was to be
/// left.
proof fn lemma_left_below<T: RTreeObject, V: BacktrackingDrainVisitor<T>>(
    holds: spec_fn(V) -> bool,
    choice: Choice<T>,
    child: Branch<T>,
    visitor: V,
    below: Walked<T, V>,
)
    requires
        joins_in_any_order::<T::Envelope>(),
        is_kept::<T, V>(holds),
        decides_by(holds, choice),
        holds(visitor),
        traverses(child, visitor, below),
        (choice.parents)(child.envelope),
        child.children.len() > 0,
        all_full(child.children),
        envelopes_left(choice, below.node.children).to_multiset() == envelopes_left(
            choice,
            child.children,
        ).to_multiset(),
    ensures
        holds(below.visitor),
        !below.stopped,
        all_full(below.node.children),
        below.node.children.len() > 0 ==> envelope_left(choice, Node::Parent(below.node))
            == envelope_left(choice, Node::Parent(child)),
        below.node.children.len() == 0 ==> envelope_left(choice, Node::Parent(child)).len() == 0,
{
    law_traversal_removes_all_that_is_chosen(holds, choice, child, visitor, below);
    law_traversal_leaves_no_empty_subtree(child, visitor, below);
    if below.removed > 0 {
        lemma_left_of_traversed(holds, choice, child, visitor, below);
        if below.node.children.len() > 0 {
            assert(is_settled(choice, Node::Parent(below.node))) by {
                lemma_traversal_settles(holds, choice, child, visitor, below);
            }
            lemma_settled_is_done(choice, Node::Parent(below.node));
        }
    }
}

/// The envelope that a traversal computes anew is the one around what was to be left.
proof fn lemma_left_of_traversed<T: RTreeObject, V: BacktrackingDrainVisitor<T>>(
    holds: spec_fn(V) -> bool,
    choice: Choice<T>,
    node: Branch<T>,
    visitor: V,
    end: Walked<T, V>,
)
    requires
        joins_in_any_order::<T::Envelope>(),
        is_kept::<T, V>(holds),
        decides_by(holds, choice),
        holds(visitor),
        traverses(node, visitor, end),
        end.removed > 0,
        envelopes_left(choice, end.node.children).to_multiset() == envelopes_left(
            choice,
            node.children,
        ).to_multiset(),
    ensures
        end.node.envelope == merged(envelopes_left(choice, node.children)),
        envelopes_left(choice, node.children).len() == end.node.children.len(),
{
    let nodes = end.node.children;
    lemma_traversal_settles(holds, choice, node, visitor, end);
    assert forall|i: int| 0 <= i < nodes.len() implies is_done(choice, #[trigger] nodes[i]) by {
        lemma_settled_is_done(choice, nodes[i]);
    }
    lemma_all_done(choice, nodes);
    lemma_merged_in_any_order(
        envelopes_left(choice, nodes),
        envelopes_left(choice, node.children),
    );
    lemma_traversal_is_settled(node, visitor, end);
}

proof fn lemma_left_move<T: RTreeObject, V: BacktrackingDrainVisitor<T>>(
    holds: spec_fn(V) -> bool,
    choice: Choice<T>,
    walk: Walk<T, V>,
    below: Option<Walked<T, V>>,
    next: Move<T, V>,
)
    requires
        joins_in_any_order::<T::Envelope>(),
        is_kept::<T, V>(holds),
        decides_by(holds, choice),
        holds(walk.visitor),
        moves(walk, below, next),
        0 <= walk.next <= walk.node.children.len(),
        all_full(walk.node.children),
        below matches Some(b) ==> match walk.node.children[walk.next] {
            Node::Leaf(_) => true,
            Node::Parent(child) => {
                &&& traverses(child, walk.visitor, b)
                &&& envelopes_left(choice, b.node.children).to_multiset() == envelopes_left(
                    choice,
                    child.children,
                ).to_multiset()
            },
        },
    ensures
        match next {
            Move::Go(then) => {
                &&& holds(then.visitor)
                &&& 0 <= then.next <= then.node.children.len()
                &&& all_full(then.node.children)
                &&& envelopes_left(choice, then.node.children).to_multiset() == envelopes_left(
                    choice,
                    walk.node.children,
                ).to_multiset()
            },
            Move::End(end) => envelopes_left(choice, end.node.children).to_multiset()
                == envelopes_left(choice, walk.node.children).to_multiset(),
        },
{
    broadcast use vstd::seq_lib::group_to_multiset_ensures;

    let children = walk.node.children;
    let i = walk.next;
    if i < children.len() {
        match children[i] {
            Node::Leaf(leaf) => {
                lemma_left_swap_remove(choice, children, i);
            },
            Node::Parent(child) => {
                if let Some(below) = below {
                    let node = Node::Parent(below.node);
                    let back = children.update(i, node);
                    lemma_left_below(holds, choice, child, walk.visitor, below);
                    if below.node.children.len() == 0 {
                        assert(swap_removed(back, i) =~= swap_removed(children, i));
                        lemma_left_swap_remove(choice, children, i);
                    } else {
                        lemma_left_update(choice, children, i, node);
                        let a = envelopes_left(choice, back).to_multiset();
                        let e = envelope_left(choice, node).to_multiset();
                        assert(a.add(e).sub(e) =~= a);
                    }
                }
            },
        }
    }
}

proof fn lemma_left_kept<T: RTreeObject, V: BacktrackingDrainVisitor<T>>(
    holds: spec_fn(V) -> bool,
    choice: Choice<T>,
    trail: Trail<T, V>,
    walk: Walk<T, V>,
    end: Walked<T, V>,
)
    requires
        joins_in_any_order::<T::Envelope>(),
        is_kept::<T, V>(holds),
        decides_by(holds, choice),
        holds(walk.visitor),
        trail.joins(Move::Go(walk), end),
        0 <= walk.next <= walk.node.children.len(),
        all_full(walk.node.children),
    ensures
        envelopes_left(choice, end.node.children).to_multiset() == envelopes_left(
            choice,
            walk.node.children,
        ).to_multiset(),
    decreases trail,
{
    match trail {
        Trail::Over => {},
        Trail::Visit { next, rest } => {
            assert(rest.joins(next, end));
            lemma_left_move(holds, choice, walk, None, next);
            if let Move::Go(then) = next {
                lemma_left_kept(holds, choice, *rest, then, end);
            }
        },
        Trail::Descend { trail, below, next, rest } => {
            assert(rest.joins(next, end));
            if let Node::Parent(child) = walk.node.children[walk.next] {
                let begin = Walk::begin(child, walk.visitor);
                assert((*trail).joins(Move::Go(begin), below));
                lemma_left_kept(holds, choice, *trail, begin, below);
            }
            lemma_left_move(holds, choice, walk, Some(below), next);
            if let Move::Go(then) = next {
                lemma_left_kept(holds, choice, *rest, then, end);
            }
        },
    }
}

/// A removal by a visitor that decides by a choice leaves the root with the envelope around what is
/// left, if no subtree was empty.
pub proof fn law_visitor_leaves_the_envelope<T: RTreeObject, V: BacktrackingDrainVisitor<T>>(
    holds: spec_fn(V) -> bool,
    choice: Choice<T>,
    before: Branch<T>,
    visitor: V,
    removed: nat,
    after: Branch<T>,
    left: V,
)
    requires
        joins_in_any_order::<T::Envelope>(),
        all_full(before.children),
        is_kept::<T, V>(holds),
        decides_by(holds, choice),
        holds(visitor),
        drains(before, visitor, removed, after, left),
    ensures
        after.envelope == root_envelope_left(choice, before),
{
    if let Some(end) = lemma_drains(before, visitor, removed, after, left) {
        let begin = Walk::begin(before, visitor);
        let trail = choose|trail: Trail<T, V>| #[trigger] trail.joins(Move::Go(begin), end);
        lemma_left_kept(holds, choice, trail, begin, end);
        law_traversal_removes_all_that_is_chosen(holds, choice, before, visitor, end);
        law_traversal_leaves_no_empty_subtree(before, visitor, end);
        if removed > 0 {
            lemma_left_of_traversed(holds, choice, before, visitor, end);
        }
    }
}

/// Whether the envelope of the node is to be computed anew, where `changed` says so of the child
/// that is being drained in turn.
spec fn will_change<T: RTreeObject>(choice: Choice<T>, frame: Frame<T>, changed: bool) -> bool {
    ||| changed
    ||| frame.removed > 0
    ||| is_open(choice, frame) && choice.among_all(frame.node.children).len() > 0
}

/// The envelopes of what is left of the children of the node, where `below` is that of the one that
/// is being drained in turn.
spec fn yet_left<T: RTreeObject>(
    choice: Choice<T>,
    frame: Frame<T>,
    below: Seq<T::Envelope>,
) -> Seq<T::Envelope> {
    envelopes_left(choice, frame.node.children) + below
}

/// The envelope of what is left of the node.
spec fn due<T: RTreeObject>(
    choice: Choice<T>,
    frame: Frame<T>,
    below: Seq<T::Envelope>,
    changed: bool,
) -> Seq<T::Envelope> {
    if !will_change(choice, frame, changed) {
        seq![frame.node.envelope]
    } else if yet_left(choice, frame, below).len() == 0 {
        Seq::empty()
    } else {
        seq![merged(yet_left(choice, frame, below))]
    }
}

/// The envelope that the root is to have in the end.
spec fn outlook<T: RTreeObject>(
    choice: Choice<T>,
    frames: Seq<Frame<T>>,
    below: Seq<T::Envelope>,
    changed: bool,
) -> T::Envelope
    decreases frames.len(),
{
    let frame = frames.last();
    if frames.len() > 1 {
        outlook(
            choice,
            frames.drop_last(),
            due(choice, frame, below, changed),
            will_change(choice, frame, changed),
        )
    } else if will_change(choice, frame, changed) {
        merged(yet_left(choice, frame, below))
    } else {
        frame.node.envelope
    }
}

proof fn lemma_outlook_same<T: RTreeObject>(
    choice: Choice<T>,
    frames: Seq<Frame<T>>,
    below: Seq<T::Envelope>,
    changed: bool,
    others: Seq<Frame<T>>,
    other: Seq<T::Envelope>,
    otherwise: bool,
)
    requires
        joins_in_any_order::<T::Envelope>(),
        frames.len() > 0,
        others.len() == frames.len(),
        others.drop_last() == frames.drop_last(),
        others.last().node.envelope == frames.last().node.envelope,
        will_change(choice, frames.last(), changed) == will_change(
            choice,
            others.last(),
            otherwise,
        ),
        yet_left(choice, frames.last(), below).to_multiset() == yet_left(
            choice,
            others.last(),
            other,
        ).to_multiset(),
    ensures
        outlook(choice, frames, below, changed) == outlook(choice, others, other, otherwise),
{
    lemma_merged_in_any_order(
        yet_left(choice, frames.last(), below),
        yet_left(choice, others.last(), other),
    );
}

proof fn lemma_left_placed<T: RTreeObject>(
    choice: Choice<T>,
    children: Seq<Node<T>>,
    i: int,
    node: Node<T>,
)
    requires
        0 <= i <= children.len(),
    ensures
        envelopes_left(choice, placed(children, i, node)).to_multiset() == envelopes_left(
            choice,
            children,
        ).to_multiset().add(envelope_left(choice, node).to_multiset()),
        choice.among_all(placed(children, i, node)).len() == choice.among_all(children).len()
            + choice.among(node).len(),
{
    let after = placed(children, i, node);
    assert(swap_removed(after, i) =~= children);
    lemma_left_swap_remove(choice, after, i);
    choice.lemma_swap_remove(after, i);
}

/// A node that is done with is left with the envelope that was to be left.
proof fn lemma_due_closed<T: RTreeObject>(choice: Choice<T>, frames: Seq<Frame<T>>)
    requires
        frames.len() > 0,
        in_place(frames),
        spends_in(choice, frames),
        !is_open(choice, frames.last()) || frames.last().next
            >= frames.last().node.children.len(),
    ensures
        ({
            let top = frames.last();
            let node = top.node.settled(top.removed);
            let left = due(choice, top, Seq::empty(), false);
            &&& will_change(choice, top, false) == (top.removed > 0)
            &&& node.children.len() == 0 && top.removed > 0 ==> left.len() == 0
            &&& node.children.len() > 0 ==> is_done(choice, Node::Parent(node)) && left
                == seq![node.envelope]
            &&& top.removed > 0 ==> merged(yet_left(choice, top, Seq::empty())) == node.envelope
        }),
{
    let top = frames[frames.len() - 1];
    let children = top.node.children;
    if is_open(choice, top) {
        assert forall|i: int| 0 <= i < children.len() implies is_done(
            choice,
            #[trigger] children[i],
        ) by {
            lemma_spent_is_done(choice, children[i]);
        }
        lemma_all_done(choice, children);
    }
}

/// Whether the root is to have the envelope `goal` in the end.
spec fn agrees_in<T: RTreeObject>(
    choice: Choice<T>,
    goal: T::Envelope,
    frames: Seq<Frame<T>>,
) -> bool {
    &&& spends_in(choice, frames)
    &&& full_in(frames)
    &&& frames.len() > 1 && frames.last().removed == 0 ==> frames.last().node.children.len() > 0
    &&& outlook(choice, frames, Seq::empty(), false) == goal
}

proof fn lemma_agrees_closed<T: RTreeObject>(
    choice: Choice<T>,
    goal: T::Envelope,
    frames: Seq<Frame<T>>,
)
    requires
        joins_in_any_order::<T::Envelope>(),
        frames.len() > 0,
        in_place(frames),
        agrees_in(choice, goal, frames),
        !is_open(choice, frames.last()) || frames.last().next
            >= frames.last().node.children.len(),
    ensures
        match closed(frames, true) {
            Step::Move(then) => {
                &&& then.len() > 1 && then.last().removed == 0 ==> then.last().node.children.len()
                    > 0
                &&& outlook(choice, then, Seq::empty(), false) == goal
            },
            Step::Yield(_, _) => false,
            Step::Finish(root, _) => root.envelope == goal,
        },
{
    broadcast use vstd::seq_lib::group_to_multiset_ensures;

    let top = frames.last();
    let node = top.node.settled(top.removed);
    let none = Seq::<T::Envelope>::empty();
    lemma_due_closed(choice, frames);
    if let Step::Move(then) = closed(frames, true) {
        let rest = frames.drop_last();
        let above = rest.last();
        let left = then.last();
        let below = due(choice, top, none, false);
        lemma_with_top(rest, left);
        lemma_add(envelopes_left(choice, above.node.children), below);
        if node.children.len() > 0 {
            lemma_left_placed(choice, above.node.children, above.next, Node::Parent(node));
        }
        lemma_outlook_same(choice, then, none, false, rest, below, top.removed > 0);
    }
}

proof fn lemma_agrees_step<T: RTreeObject, R: SelectionFunction<T>>(
    choice: Choice<T>,
    function: R,
    goal: T::Envelope,
    frames: Seq<Frame<T>>,
    step: Step<T>,
)
    requires
        joins_in_any_order::<T::Envelope>(),
        selects_by(function, choice),
        frames.len() > 0,
        in_place(frames),
        agrees_in(choice, goal, frames),
        steps(function, frames, step),
    ensures
        match step {
            Step::Move(then) => agrees_in(choice, goal, then),
            Step::Yield(_, then) => agrees_in(choice, goal, then),
            Step::Finish(root, _) => root.envelope == goal,
        },
{
    broadcast use vstd::seq_lib::group_to_multiset_ensures;

    lemma_spends_step(choice, function, frames, step);
    lemma_full_is_kept::<T, R>(function);
    let top = frames.last();
    let children = top.node.children;
    let i = top.next;
    let none = Seq::<T::Envelope>::empty();
    if opens(function, top, true) && i < children.len() && takes(function, frames, step) {
        let without = Frame { node: top.node.without_child(i), ..top };
        let rest = without.node.children;
        lemma_left_swap_remove(choice, children, i);
        choice.lemma_swap_remove(children, i);
        match children[i] {
            Node::Parent(child) => {
                let shorter = with_top(frames, without);
                let new = Frame { node: child, next: 0, removed: 0 };
                let then = shorter.push(new);
                let below = envelope_left(choice, children[i]);
                let changed = choice.among(children[i]).len() > 0;
                lemma_with_top(frames, without);
                assert(then.drop_last() =~= shorter);
                lemma_add(envelopes_left(choice, rest), below);
                lemma_outlook_same(choice, shorter, below, changed, frames, none, false);
            },
            Node::Leaf(leaf) => {
                let taken = Frame { removed: top.removed + 1, ..without };
                let passed = Frame { next: i + 1, ..top };
                lemma_with_top(frames, taken);
                lemma_with_top(frames, passed);
                if (choice.objects)(leaf) {
                    assert(envelope_left(choice, children[i]).to_multiset() =~= Multiset::empty());
                    assert(envelopes_left(choice, rest).to_multiset().add(Multiset::empty())
                        =~= envelopes_left(choice, rest).to_multiset());
                    lemma_outlook_same(
                        choice,
                        with_top(frames, taken),
                        none,
                        false,
                        frames,
                        none,
                        false,
                    );
                } else {
                    lemma_outlook_same(
                        choice,
                        with_top(frames, passed),
                        none,
                        false,
                        frames,
                        none,
                        false,
                    );
                }
            },
        }
    } else {
        lemma_agrees_closed(choice, goal, frames);
    }
}

/// A drain to the end of what a choice selects leaves the root with the envelope around what is
/// left, if no subtree was empty.
pub proof fn law_finish_leaves_the_envelope<T: RTreeObject, R: SelectionFunction<T>>(
    choice: Choice<T>,
    function: R,
    root: Branch<T>,
    objects: Seq<T>,
    then: Seq<Frame<T>>,
    after: Branch<T>,
    removed: nat,
)
    requires
        joins_in_any_order::<T::Envelope>(),
        all_full(root.children),
        selects_by(function, choice),
        yields(function, start(root), objects, then),
        advances(function, then, Step::Finish(after, removed)),
    ensures
        after.envelope == root_envelope_left(choice, root),
{
    let goal = root_envelope_left(choice, root);
    let holds = |frames: Seq<Frame<T>>| agrees_in(choice, goal, frames);
    assert(is_kept_by_steps(function, holds)) by {
        assert forall|frames: Seq<Frame<T>>, step: Step<T>|
            frames.len() > 0 && in_place(frames) && holds(frames) && #[trigger] steps(
                function,
                frames,
                step,
            ) implies match step {
            Step::Move(then) => holds(then),
            Step::Yield(_, then) => holds(then),
            Step::Finish(_, _) => true,
        } by {
            lemma_agrees_step(choice, function, goal, frames, step);
        }
    }
    lemma_start(root);
    lemma_after_yields(function, holds, start(root), objects, then);
    let end = Step::Finish(after, removed);
    let last = lemma_before_last_step(function, holds, then, end);
    lemma_agrees_step(choice, function, goal, last, end);
}

/// A visitor and a selection function that choose the same agree, whether or not the visitor asks
/// to go back: a removal by the one and a drain to the end by the other take out equally many
/// objects and leave the same.
pub proof fn law_visitor_and_drain_agree<
    T: RTreeObject,
    V: BacktrackingDrainVisitor<T>,
    R: SelectionFunction<T>,
>(
    holds: spec_fn(V) -> bool,
    choice: Choice<T>,
    root: Branch<T>,
    visitor: V,
    removed: nat,
    after: Branch<T>,
    left: V,
    function: R,
    objects: Seq<T>,
    then: Seq<Frame<T>>,
    other: Branch<T>,
    count: nat,
)
    requires
        is_kept::<T, V>(holds),
        decides_by(holds, choice),
        holds(visitor),
        drains(root, visitor, removed, after, left),
        selects_by(function, choice),
        yields(function, start(root), objects, then),
        advances(function, then, Step::Finish(other, count)),
    ensures
        removed == objects.len(),
        removed == count,
        after.leaves() == other.leaves(),
        joins_in_any_order::<T::Envelope>() && all_full(root.children) ==> after.envelope
            == other.envelope,
{
    broadcast use vstd::seq_lib::group_to_multiset_ensures;

    law_removes_all_that_is_chosen(holds, choice, root, visitor, removed, after, left);
    law_drain_yields_all_selected(choice, function, root, objects, then, other, count);
    law_finish_removes_only_what_was_yielded(function, root, objects, then, other, count);
    let chosen = choice.among(Node::Parent(root));
    assert(after.leaves() =~= after.leaves().add(chosen).sub(chosen));
    if joins_in_any_order::<T::Envelope>() && all_full(root.children) {
        law_visitor_leaves_the_envelope(holds, choice, root, visitor, removed, after, left);
        law_finish_leaves_the_envelope(choice, function, root, objects, then, other, count);
    }
}

} // verus!
