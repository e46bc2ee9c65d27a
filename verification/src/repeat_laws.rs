//! What holds of removals one after the other.

use crate::drain_laws::{
    all_open, is_kept_by_steps, is_open, law_drain_yields_only_selected,
    law_drop_removes_only_what_was_yielded, law_finish_removes_only_what_was_yielded,
    lemma_after_yields, lemma_before_last_step, selects_by, yields,
};
use crate::drain_steps::{
    advances, closed, collapsed, holding, in_place, lemma_closed, lemma_put_back, lemma_start,
    lemma_with_top, opens, placed, restored, start, steps, takes, with_top, Frame, Step,
};
use crate::model::{lemma_leaves_swap_remove, Branch, Choice, Node};
use crate::object::RTreeObject;
use crate::selection::SelectionFunction;
use crate::selection_laws::{
    accepts_what_contains, covers_all, grows, is_enclosed, keeps_what_it_contains,
    law_all_chosen_objects_are_reached, law_drain_takes_all_chosen, law_enclosed_tree_is_covered,
    lemma_enclosed, lemma_envelope_covers, only,
};
use crate::traversal::{drains, lemma_drains, moves, traverses, Move, Trail, Walk, Walked};
use crate::visitor::BacktrackingDrainVisitor;
use crate::visitor_laws::{decides_by, is_kept};
use vstd::prelude::*;

verus! {

/// Whether a visitor that decides by `choice` finds nothing to change at or below `node`.
pub open spec fn is_settled<T: RTreeObject>(choice: Choice<T>, node: Node<T>) -> bool
    decreases node,
{
    match node {
        Node::Leaf(object) => !(choice.objects)(object),
        Node::Parent(branch) => (choice.parents)(branch.envelope) ==> {
            &&& branch.children.len() > 0
            &&& forall|i: int|
                0 <= i < branch.children.len() ==> is_settled(choice, #[trigger] branch.children[i])
        },
    }
}

/// Whether the leading `end` nodes are settled.
pub open spec fn all_settled<T: RTreeObject>(
    choice: Choice<T>,
    nodes: Seq<Node<T>>,
    end: int,
) -> bool {
    forall|i: int| 0 <= i < end && i < nodes.len() ==> is_settled(choice, #[trigger] nodes[i])
}

proof fn lemma_settles_move<T: RTreeObject, V: BacktrackingDrainVisitor<T>>(
    holds: spec_fn(V) -> bool,
    choice: Choice<T>,
    walk: Walk<T, V>,
    below: Option<Walked<T, V>>,
    next: Move<T, V>,
)
    requires
        is_kept::<T, V>(holds),
        decides_by(holds, choice),
        holds(walk.visitor),
        moves(walk, below, next),
        0 <= walk.next <= walk.node.children.len(),
        all_settled(choice, walk.node.children, walk.next),
        below matches Some(b) ==> match walk.node.children[walk.next] {
            Node::Leaf(_) => true,
            Node::Parent(child) => {
                &&& holds(b.visitor)
                &&& !b.stopped
                &&& all_settled(choice, b.node.children, b.node.children.len() as int)
            },
        },
    ensures
        match next {
            Move::Go(then) => {
                &&& holds(then.visitor)
                &&& 0 <= then.next <= then.node.children.len()
                &&& all_settled(choice, then.node.children, then.next)
            },
            Move::End(end) => {
                &&& holds(end.visitor)
                &&& !end.stopped
                &&& all_settled(choice, end.node.children, end.node.children.len() as int)
            },
        },
{
}

proof fn lemma_settles<T: RTreeObject, V: BacktrackingDrainVisitor<T>>(
    holds: spec_fn(V) -> bool,
    choice: Choice<T>,
    trail: Trail<T, V>,
    walk: Walk<T, V>,
    end: Walked<T, V>,
)
    requires
        is_kept::<T, V>(holds),
        decides_by(holds, choice),
        holds(walk.visitor),
        trail.joins(Move::Go(walk), end),
        0 <= walk.next <= walk.node.children.len(),
        all_settled(choice, walk.node.children, walk.next),
    ensures
        holds(end.visitor),
        !end.stopped,
        all_settled(choice, end.node.children, end.node.children.len() as int),
    decreases trail,
{
    match trail {
        Trail::Over => {},
        Trail::Visit { next, rest } => {
            assert(rest.joins(next, end));
            lemma_settles_move(holds, choice, walk, None, next);
            if let Move::Go(then) = next {
                lemma_settles(holds, choice, *rest, then, end);
            }
        },
        Trail::Descend { trail, below, next, rest } => {
            if let Node::Parent(child) = walk.node.children[walk.next] {
                lemma_settles(holds, choice, *trail, Walk::begin(child, walk.visitor), below);
            }
            lemma_settles_move(holds, choice, walk, Some(below), next);
            if let Move::Go(then) = next {
                lemma_settles(holds, choice, *rest, then, end);
            }
        },
    }
}

/// A traversal leaves what is settled.
pub proof fn lemma_traversal_settles<T: RTreeObject, V: BacktrackingDrainVisitor<T>>(
    holds: spec_fn(V) -> bool,
    choice: Choice<T>,
    node: Branch<T>,
    visitor: V,
    end: Walked<T, V>,
)
    requires
        is_kept::<T, V>(holds),
        decides_by(holds, choice),
        holds(visitor),
        traverses(node, visitor, end),
    ensures
        all_settled(choice, end.node.children, end.node.children.len() as int),
{
    let begin = Walk::begin(node, visitor);
    let trail = choose|trail: Trail<T, V>| #[trigger] trail.joins(Move::Go(begin), end);
    lemma_settles(holds, choice, trail, begin, end);
}

/// A traversal of what is settled changes nothing.
proof fn lemma_settled<T: RTreeObject, V: BacktrackingDrainVisitor<T>>(
    holds: spec_fn(V) -> bool,
    choice: Choice<T>,
    trail: Trail<T, V>,
    walk: Walk<T, V>,
    end: Walked<T, V>,
)
    requires
        is_kept::<T, V>(holds),
        decides_by(holds, choice),
        holds(walk.visitor),
        trail.joins(Move::Go(walk), end),
        0 <= walk.next <= walk.node.children.len(),
        walk.removed == 0,
        !walk.revisit,
        all_settled(choice, walk.node.children, walk.node.children.len() as int),
    ensures
        holds(end.visitor),
        end.node == walk.node,
        end.removed == 0,
        !end.revisit,
        !end.stopped,
    decreases trail,
{
    match trail {
        Trail::Over => {},
        Trail::Visit { next, rest } => {
            assert(rest.joins(next, end));
            if let Move::Go(then) = next {
                lemma_settled(holds, choice, *rest, then, end);
            }
        },
        Trail::Descend { trail, below, next, rest } => {
            if let Node::Parent(child) = walk.node.children[walk.next] {
                lemma_settled(holds, choice, *trail, Walk::begin(child, walk.visitor), below);
            }
            let back = walk.node.with_child(walk.next, Node::Parent(below.node));
            assert(back.children =~= walk.node.children);
            if let Move::Go(then) = next {
                lemma_settled(holds, choice, *rest, then, end);
            }
        },
    }
}

/// A second removal by the same choice removes nothing and leaves the tree as the first one left
/// it, whatever the tree.
pub proof fn law_second_visit_changes_nothing<T: RTreeObject, V: BacktrackingDrainVisitor<T>>(
    holds: spec_fn(V) -> bool,
    choice: Choice<T>,
    before: Branch<T>,
    first: V,
    removed: nat,
    after: Branch<T>,
    left: V,
    second: V,
    again: nat,
    then: Branch<T>,
    last: V,
)
    requires
        is_kept::<T, V>(holds),
        decides_by(holds, choice),
        holds(first),
        drains(before, first, removed, after, left),
        holds(second),
        drains(after, second, again, then, last),
    ensures
        again == 0,
        then == after,
{
    let one = lemma_drains(before, first, removed, after, left);
    let other = lemma_drains(after, second, again, then, last);
    if let Some(end) = one {
        lemma_traversal_settles(holds, choice, before, first, end);
        if let Some(over) = other {
            let begin = Walk::begin(after, second);
            let trail = choose|trail: Trail<T, V>| #[trigger] trail.joins(Move::Go(begin), over);
            lemma_settled(holds, choice, trail, begin, over);
        }
    }
}

/// Whether a drain of what `choice` selects finds nothing to change at or below `node`.
pub open spec fn is_spent<T: RTreeObject>(choice: Choice<T>, node: Node<T>) -> bool
    decreases node,
{
    match node {
        Node::Leaf(object) => !(choice.objects)(object),
        Node::Parent(branch) => {
            &&& branch.children.len() > 0
            &&& (choice.parents)(branch.envelope) ==> forall|i: int|
                0 <= i < branch.children.len() ==> is_spent(choice, #[trigger] branch.children[i])
        },
    }
}

/// Whether the leading `end` nodes are spent.
pub open spec fn all_spent<T: RTreeObject>(
    choice: Choice<T>,
    nodes: Seq<Node<T>>,
    end: int,
) -> bool {
    forall|i: int| 0 <= i < end && i < nodes.len() ==> is_spent(choice, #[trigger] nodes[i])
}

/// Whether what was dealt with is spent, and nothing was removed from a node whose children are not
/// looked at.
pub open spec fn spends_in<T: RTreeObject>(choice: Choice<T>, frames: Seq<Frame<T>>) -> bool {
    &&& all_open(choice, frames)
    &&& forall|i: int|
        0 <= i < frames.len() ==> all_spent(
            choice,
            (#[trigger] frames[i]).node.children,
            frames[i].next,
        )
    &&& frames.last().removed > 0 ==> is_open(choice, frames.last())
}

/// Whether the root is one that a drain leaves as it is.
pub open spec fn is_spent_root<T: RTreeObject>(choice: Choice<T>, root: Branch<T>) -> bool {
    (choice.parents)(root.envelope) ==> all_spent(
        choice,
        root.children,
        root.children.len() as int,
    )
}

pub proof fn lemma_spends_closed<T: RTreeObject>(choice: Choice<T>, frames: Seq<Frame<T>>)
    requires
        frames.len() > 0,
        in_place(frames),
        spends_in(choice, frames),
        !is_open(choice, frames.last()) || frames.last().next
            >= frames.last().node.children.len(),
    ensures
        match closed(frames, true) {
            Step::Move(then) => spends_in(choice, then),
            Step::Yield(_, _) => false,
            Step::Finish(root, _) => is_spent_root(choice, root),
        },
{
    if let Step::Move(then) = closed(frames, true) {
        let rest = frames.drop_last();
        lemma_with_top(rest, then.last());
    }
}

pub proof fn lemma_spends_step<T: RTreeObject, R: SelectionFunction<T>>(
    choice: Choice<T>,
    function: R,
    frames: Seq<Frame<T>>,
    step: Step<T>,
)
    requires
        selects_by(function, choice),
        frames.len() > 0,
        in_place(frames),
        spends_in(choice, frames),
        steps(function, frames, step),
    ensures
        match step {
            Step::Move(then) => spends_in(choice, then),
            Step::Yield(_, then) => spends_in(choice, then),
            Step::Finish(root, _) => is_spent_root(choice, root),
        },
{
    let top = frames.last();
    let children = top.node.children;
    let i = top.next;
    if opens(function, top, true) && i < children.len() && takes(function, frames, step) {
        let without = Frame { node: top.node.without_child(i), ..top };
        match children[i] {
            Node::Parent(child) => {
                lemma_with_top(frames, without);
            },
            Node::Leaf(leaf) => {
                let taken = Frame { removed: top.removed + 1, ..without };
                let passed = Frame { next: i + 1, ..top };
                lemma_with_top(frames, taken);
                lemma_with_top(frames, passed);
            },
        }
    } else {
        lemma_spends_closed(choice, frames);
    }
}

proof fn lemma_spends_is_kept<T: RTreeObject, R: SelectionFunction<T>>(
    choice: Choice<T>,
    function: R,
)
    requires
        selects_by(function, choice),
    ensures
        is_kept_by_steps(function, |frames: Seq<Frame<T>>| spends_in(choice, frames)),
{
    assert forall|frames: Seq<Frame<T>>, step: Step<T>|
        frames.len() > 0 && in_place(frames) && spends_in(choice, frames) && #[trigger] steps(
            function,
            frames,
            step,
        ) implies match step {
        Step::Move(then) => spends_in(choice, then),
        Step::Yield(_, then) => spends_in(choice, then),
        Step::Finish(_, _) => true,
    } by {
        lemma_spends_step(choice, function, frames, step);
    }
}

/// Whether the nodes make up `root`, and a drain finds nothing to change.
spec fn spent_in<T: RTreeObject>(
    choice: Choice<T>,
    root: Branch<T>,
    frames: Seq<Frame<T>>,
) -> bool {
    &&& restored(frames) == root
    &&& all_open(choice, frames)
    &&& forall|i: int| 0 <= i < frames.len() ==> (#[trigger] frames[i]).removed == 0
    &&& forall|i: int|
        0 <= i < frames.len() && is_open(choice, #[trigger] frames[i]) ==> all_spent(
            choice,
            frames[i].node.children,
            frames[i].node.children.len() as int,
        )
    &&& frames.len() > 1 ==> frames.last().node.children.len() > 0
}

proof fn lemma_spent_closed<T: RTreeObject>(
    choice: Choice<T>,
    root: Branch<T>,
    frames: Seq<Frame<T>>,
)
    requires
        frames.len() > 0,
        in_place(frames),
        spent_in(choice, root, frames),
    ensures
        match closed(frames, true) {
            Step::Move(then) => spent_in(choice, root, then),
            Step::Yield(_, _) => false,
            Step::Finish(over, removed) => over == root && removed == 0,
        },
{
    let top = frames.last();
    if let Step::Move(then) = closed(frames, true) {
        let rest = frames.drop_last();
        let above = rest.last();
        let back = holding(above, Node::Parent(top.node));
        lemma_with_top(rest, then.last());
        lemma_with_top(rest, back);
        lemma_restored_same(with_top(rest, back), then);
    }
}

/// The tree does not depend on how much of the last node was dealt with.
proof fn lemma_restored_same<T: RTreeObject>(frames: Seq<Frame<T>>, other: Seq<Frame<T>>)
    requires
        frames.len() > 0,
        other.len() == frames.len(),
        other.drop_last() == frames.drop_last(),
        other.last().node == frames.last().node,
    ensures
        restored(other) == restored(frames),
{
}

proof fn lemma_spent_step<T: RTreeObject, R: SelectionFunction<T>>(
    choice: Choice<T>,
    function: R,
    root: Branch<T>,
    frames: Seq<Frame<T>>,
    step: Step<T>,
)
    requires
        selects_by(function, choice),
        frames.len() > 0,
        in_place(frames),
        spent_in(choice, root, frames),
        steps(function, frames, step),
    ensures
        match step {
            Step::Move(then) => spent_in(choice, root, then),
            Step::Yield(_, _) => false,
            Step::Finish(over, removed) => over == root && removed == 0,
        },
{
    let top = frames.last();
    let children = top.node.children;
    let i = top.next;
    if opens(function, top, true) && i < children.len() && takes(function, frames, step) {
        let without = Frame { node: top.node.without_child(i), ..top };
        match children[i] {
            Node::Parent(child) => {
                let shorter = with_top(frames, without);
                let then = shorter.push(Frame { node: child, next: 0, removed: 0 });
                lemma_with_top(frames, without);
                assert(then.drop_last() =~= shorter);
                assert(placed(without.node.children, i, children[i]) =~= children);
                assert(with_top(shorter, holding(without, children[i])) =~= frames);
            },
            Node::Leaf(_) => {
                let passed = Frame { next: i + 1, ..top };
                lemma_with_top(frames, passed);
                lemma_restored_same(frames, with_top(frames, passed));
            },
        }
    } else {
        lemma_spent_closed(choice, root, frames);
    }
}

/// After a drain to the end, a second one of the same selection yields nothing and leaves the tree
/// as the first one left it, whatever the tree.
pub proof fn law_second_drain_changes_nothing<T: RTreeObject, R: SelectionFunction<T>>(
    choice: Choice<T>,
    first: R,
    root: Branch<T>,
    objects: Seq<T>,
    then: Seq<Frame<T>>,
    after: Branch<T>,
    removed: nat,
    second: R,
    end: Step<T>,
)
    requires
        selects_by(first, choice),
        yields(first, start(root), objects, then),
        advances(first, then, Step::Finish(after, removed)),
        selects_by(second, choice),
        advances(second, start(after), end),
    ensures
        end == Step::Finish(after, 0),
{
    let holds = |frames: Seq<Frame<T>>| spends_in(choice, frames);
    lemma_start(root);
    lemma_spends_is_kept(choice, first);
    lemma_after_yields(first, holds, start(root), objects, then);
    let last = lemma_before_last_step(first, holds, then, Step::Finish(after, removed));
    lemma_spends_step(choice, first, last, Step::Finish(after, removed));

    let spent = |frames: Seq<Frame<T>>| spent_in(choice, after, frames);
    assert(is_kept_by_steps(second, spent)) by {
        assert forall|frames: Seq<Frame<T>>, step: Step<T>|
            frames.len() > 0 && in_place(frames) && spent(frames) && #[trigger] steps(
                second,
                frames,
                step,
            ) implies match step {
            Step::Move(then) => spent(then),
            Step::Yield(_, then) => spent(then),
            Step::Finish(_, _) => true,
        } by {
            lemma_spent_step(choice, second, after, frames, step);
        }
    }
    lemma_start(after);
    let last = lemma_before_last_step(second, spent, start(after), end);
    lemma_spent_step(choice, second, after, last, end);
}

/// Whether the children of the nodes are covered, and each node that a chosen object is below is
/// one that may hold chosen objects.
spec fn covered_in<T: RTreeObject>(choice: Choice<T>, frames: Seq<Frame<T>>) -> bool {
    &&& forall|i: int|
        0 <= i < frames.len() ==> covers_all(choice, (#[trigger] frames[i]).node.children)
    &&& forall|i: int, j: int, object: T|
        #![trigger frames[i], frames[j].node.leaves().count(object)]
        0 <= i <= j < frames.len() && frames[j].node.leaves().count(object) > 0 && (
        choice.objects)(object) ==> (choice.parents)(frames[i].node.envelope)
}

proof fn lemma_covered_settled<T: RTreeObject>(choice: Choice<T>, frames: Seq<Frame<T>>)
    requires
        grows(choice),
        frames.len() > 0,
        covered_in(choice, frames),
    ensures
        choice.covers(Node::Parent(frames.last().node.settled(frames.last().removed))),
{
    let top = frames[frames.len() - 1];
    let node = top.node.settled(top.removed);
    assert forall|object: T| #[trigger]
        node.leaves().count(object) > 0 && (choice.objects)(object) implies (choice.parents)(
        node.envelope,
    ) by {
        if top.removed > 0 {
            lemma_envelope_covers(choice, node.children, object);
        }
    }
}

proof fn lemma_covered_closed<T: RTreeObject>(
    choice: Choice<T>,
    frames: Seq<Frame<T>>,
    keep_place: bool,
)
    requires
        grows(choice),
        frames.len() > 0,
        in_place(frames),
        covered_in(choice, frames),
    ensures
        match closed(frames, keep_place) {
            Step::Move(then) => covered_in(choice, then),
            Step::Yield(_, _) => false,
            Step::Finish(root, _) => choice.covers(Node::Parent(root)),
        },
{
    lemma_covered_settled(choice, frames);
    if let Step::Move(then) = closed(frames, keep_place) {
        let top = frames.last();
        let rest = frames.drop_last();
        let above = rest.last();
        let node = top.node.settled(top.removed);
        let k = rest.len() - 1;
        lemma_with_top(rest, then.last());
        lemma_put_back(above.node.children, above.next, Node::Parent(node));
        assert forall|i: int, j: int, object: T|
            #![trigger then[i], then[j].node.leaves().count(object)]
            0 <= i <= j < then.len() && then[j].node.leaves().count(object) > 0 && (
            choice.objects)(object) implies (choice.parents)(then[i].node.envelope) by {
            if j == k {
                assert(above.node.leaves().count(object) > 0 || top.node.leaves().count(object)
                    > 0);
            }
        }
    }
}

proof fn lemma_covered_step<T: RTreeObject, R: SelectionFunction<T>>(
    choice: Choice<T>,
    function: R,
    frames: Seq<Frame<T>>,
    step: Step<T>,
)
    requires
        grows(choice),
        frames.len() > 0,
        in_place(frames),
        covered_in(choice, frames),
        steps(function, frames, step),
    ensures
        match step {
            Step::Move(then) => covered_in(choice, then),
            Step::Yield(_, then) => covered_in(choice, then),
            Step::Finish(root, _) => choice.covers(Node::Parent(root)),
        },
{
    lemma_covered_closed(choice, frames, true);
    let k = frames.len() - 1;
    let top = frames[k];
    let children = top.node.children;
    let n = top.next;
    if opens(function, top, true) && n < children.len() && takes(function, frames, step) {
        lemma_leaves_swap_remove(children, n);
        let then = match step {
            Step::Move(then) => then,
            Step::Yield(_, then) => then,
            Step::Finish(_, _) => frames,
        };
        assert forall|i: int, j: int, object: T|
            #![trigger then[i], then[j].node.leaves().count(object)]
            0 <= i <= j < then.len() && then[j].node.leaves().count(object) > 0 && (
            choice.objects)(object) implies (choice.parents)(then[i].node.envelope) by {
            if j >= k {
                assert(then[j].node.leaves().count(object) <= top.node.leaves().count(object));
            }
        }
    }
}

proof fn lemma_covered_collapsed<T: RTreeObject>(choice: Choice<T>, frames: Seq<Frame<T>>)
    requires
        grows(choice),
        frames.len() > 0,
        in_place(frames),
        covered_in(choice, frames),
    ensures
        choice.covers(Node::Parent(collapsed(frames).0)),
    decreases frames.len(),
{
    lemma_closed(frames, false);
    lemma_covered_closed(choice, frames, false);
    if let Step::Move(rest) = closed(frames, false) {
        lemma_covered_collapsed(choice, rest);
    }
}

proof fn lemma_covered_start<T: RTreeObject>(choice: Choice<T>, root: Branch<T>)
    requires
        choice.covers(Node::Parent(root)),
    ensures
        covered_in(choice, start(root)),
{
    let node = Node::Parent(root);
    assert(node->Parent_0 == root);
}

/// A drain leaves a covered tree covered: when the iterator is dropped, at any point.
pub proof fn law_drop_keeps_the_tree_covered<T: RTreeObject, R: SelectionFunction<T>>(
    choice: Choice<T>,
    function: R,
    root: Branch<T>,
    objects: Seq<T>,
    then: Seq<Frame<T>>,
)
    requires
        grows(choice),
        choice.covers(Node::Parent(root)),
        yields(function, start(root), objects, then),
    ensures
        choice.covers(Node::Parent(collapsed(then).0)),
{
    let holds = |frames: Seq<Frame<T>>| covered_in(choice, frames);
    assert(is_kept_by_steps(function, holds)) by {
        assert forall|frames: Seq<Frame<T>>, step: Step<T>|
            frames.len() > 0 && in_place(frames) && holds(frames) && #[trigger] steps(
                function,
                frames,
                step,
            ) implies match step {
            Step::Move(then) => holds(then),
            Step::Yield(_, then) => holds(then),
            Step::Finish(_, _) => true,
        } by {
            lemma_covered_step(choice, function, frames, step);
        }
    }
    lemma_start(root);
    lemma_covered_start(choice, root);
    lemma_after_yields(function, holds, start(root), objects, then);
    lemma_covered_collapsed(choice, then);
}

/// A drain leaves a tree whose envelopes contain the objects below them with envelopes that do:
/// when the iterator is dropped, at any point.
pub proof fn law_drop_keeps_the_tree_enclosed<T: RTreeObject, R: SelectionFunction<T>>(
    contains: spec_fn(T::Envelope, T) -> bool,
    function: R,
    root: Branch<T>,
    objects: Seq<T>,
    then: Seq<Frame<T>>,
)
    requires
        keeps_what_it_contains(contains),
        is_enclosed(contains, Node::Parent(root)),
        yields(function, start(root), objects, then),
    ensures
        is_enclosed(contains, Node::Parent(collapsed(then).0)),
{
    let after = Node::Parent(collapsed(then).0);
    assert forall|object: T| (#[trigger] only(contains, object)).covers(after) by {
        let choice = only(contains, object);
        law_enclosed_tree_is_covered(choice, contains, Node::Parent(root));
        law_drop_keeps_the_tree_covered(choice, function, root, objects, then);
    }
    lemma_enclosed(contains, after);
}

proof fn lemma_resumed<T: RTreeObject, R: SelectionFunction<T>>(
    choice: Choice<T>,
    whole: R,
    first: R,
    second: R,
    root: Branch<T>,
    all: Seq<T>,
    before: Seq<Frame<T>>,
    after: Branch<T>,
    removed: nat,
    some: Seq<T>,
    dropped: Seq<Frame<T>>,
    others: Seq<T>,
    then: Seq<Frame<T>>,
    rest: Branch<T>,
    again: nat,
)
    requires
        choice.covers(Node::Parent(root)),
        choice.covers(Node::Parent(collapsed(dropped).0)),
        selects_by(whole, choice),
        yields(whole, start(root), all, before),
        advances(whole, before, Step::Finish(after, removed)),
        selects_by(first, choice),
        yields(first, start(root), some, dropped),
        selects_by(second, choice),
        yields(second, start(collapsed(dropped).0), others, then),
        advances(second, then, Step::Finish(rest, again)),
    ensures
        all.to_multiset() == some.to_multiset().add(others.to_multiset()),
        rest.leaves() == after.leaves(),
        removed == collapsed(dropped).1 + again,
{
    let middle = collapsed(dropped).0;
    law_drain_takes_all_chosen(choice, whole, root, all, before, after, removed);
    law_finish_removes_only_what_was_yielded(whole, root, all, before, after, removed);
    law_drop_removes_only_what_was_yielded(first, root, some, dropped);
    law_drain_yields_only_selected(choice, first, root, some, dropped);
    law_all_chosen_objects_are_reached(choice, root);
    law_drain_takes_all_chosen(choice, second, middle, others, then, rest, again);
    law_finish_removes_only_what_was_yielded(second, middle, others, then, rest, again);
    let a = all.to_multiset();
    let b = some.to_multiset();
    let c = others.to_multiset();
    assert forall|t: T|
        a.count(t) == b.count(t) + c.count(t) && #[trigger] rest.leaves().count(t)
            == after.leaves().count(t) by {
        assert(middle.leaves().add(b).count(t) == root.leaves().count(t));
    }
}

/// A drain may be interrupted and taken up again. What was yielded before the iterator was dropped
/// and what a second drain to the end yields is what one drain to the end yields, and the objects
/// that are left are the same.
pub proof fn law_drain_may_be_resumed<T: RTreeObject, R: SelectionFunction<T>>(
    choice: Choice<T>,
    whole: R,
    first: R,
    second: R,
    root: Branch<T>,
    all: Seq<T>,
    before: Seq<Frame<T>>,
    after: Branch<T>,
    removed: nat,
    some: Seq<T>,
    dropped: Seq<Frame<T>>,
    others: Seq<T>,
    then: Seq<Frame<T>>,
    rest: Branch<T>,
    again: nat,
)
    requires
        grows(choice),
        choice.covers(Node::Parent(root)),
        selects_by(whole, choice),
        yields(whole, start(root), all, before),
        advances(whole, before, Step::Finish(after, removed)),
        selects_by(first, choice),
        yields(first, start(root), some, dropped),
        selects_by(second, choice),
        yields(second, start(collapsed(dropped).0), others, then),
        advances(second, then, Step::Finish(rest, again)),
    ensures
        all.to_multiset() == some.to_multiset().add(others.to_multiset()),
        rest.leaves() == after.leaves(),
        removed == collapsed(dropped).1 + again,
{
    law_drop_keeps_the_tree_covered(choice, first, root, some, dropped);
    lemma_resumed(
        choice,
        whole,
        first,
        second,
        root,
        all,
        before,
        after,
        removed,
        some,
        dropped,
        others,
        then,
        rest,
        again,
    );
}

/// The same of a tree whose envelopes contain the objects below them, where each envelope that
/// contains a chosen object is accepted and merging keeps what is contained.
pub proof fn law_drain_of_an_enclosed_tree_may_be_resumed<T: RTreeObject, R: SelectionFunction<T>>(
    choice: Choice<T>,
    contains: spec_fn(T::Envelope, T) -> bool,
    whole: R,
    first: R,
    second: R,
    root: Branch<T>,
    all: Seq<T>,
    before: Seq<Frame<T>>,
    after: Branch<T>,
    removed: nat,
    some: Seq<T>,
    dropped: Seq<Frame<T>>,
    others: Seq<T>,
    then: Seq<Frame<T>>,
    rest: Branch<T>,
    again: nat,
)
    requires
        keeps_what_it_contains(contains),
        accepts_what_contains(choice, contains),
        is_enclosed(contains, Node::Parent(root)),
        selects_by(whole, choice),
        yields(whole, start(root), all, before),
        advances(whole, before, Step::Finish(after, removed)),
        selects_by(first, choice),
        yields(first, start(root), some, dropped),
        selects_by(second, choice),
        yields(second, start(collapsed(dropped).0), others, then),
        advances(second, then, Step::Finish(rest, again)),
    ensures
        all.to_multiset() == some.to_multiset().add(others.to_multiset()),
        rest.leaves() == after.leaves(),
        removed == collapsed(dropped).1 + again,
{
    law_drop_keeps_the_tree_enclosed(contains, first, root, some, dropped);
    law_enclosed_tree_is_covered(choice, contains, Node::Parent(root));
    law_enclosed_tree_is_covered(choice, contains, Node::Parent(collapsed(dropped).0));
    lemma_resumed(
        choice,
        whole,
        first,
        second,
        root,
        all,
        before,
        after,
        removed,
        some,
        dropped,
        others,
        then,
        rest,
        again,
    );
}

} // verus!
