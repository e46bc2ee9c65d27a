//! Where each removal leaves what it does not remove.

use crate::drain_laws::{is_kept_by_steps, lemma_after_yields, lemma_before_last_step, yields};
use crate::drain_steps::{
    advances, closed, collapsed, holding, in_place, lemma_closed, lemma_start, lemma_step,
    lemma_with_top, opens, placed, restored, start, steps, takes, with_top, Frame, Step,
};
use crate::model::{all_full, swap_removed, Branch, Node};
use crate::object::RTreeObject;
use crate::selection::SelectionFunction;
use crate::shape::{
    keeps_its_shape, lemma_branch_left_of_left, lemma_keeps_its_shape, lemma_left_of_same,
    lemma_left_of_swapped, lemma_left_of_with, lemma_left_of_without,
};
use crate::traversal::{drains, lemma_drains, moves, traverses, Move, Trail, Walk, Walked};
use crate::visitor::BacktrackingDrainVisitor;
use vstd::prelude::*;

verus! {

proof fn lemma_shape_move<T: RTreeObject, V: BacktrackingDrainVisitor<T>>(
    walk: Walk<T, V>,
    below: Option<Walked<T, V>>,
    next: Move<T, V>,
)
    requires
        moves(walk, below, next),
        0 <= walk.next <= walk.node.children.len(),
        below matches Some(b) ==> match walk.node.children[walk.next] {
            Node::Leaf(_) => true,
            Node::Parent(child) => b.node.is_left_of(child),
        },
    ensures
        match next {
            Move::Go(then) => {
                &&& 0 <= then.next <= then.node.children.len()
                &&& then.node.is_left_of(walk.node)
            },
            Move::End(then) => then.node.is_left_of(walk.node),
        },
{
    lemma_left_of_same(walk.node, walk.node);
    lemma_left_of_same(walk.node.settled(walk.removed), walk.node);
    if walk.next < walk.node.children.len() {
        let without = walk.node.without_child(walk.next);
        lemma_left_of_without(without, walk.node, walk.next);
        if let Node::Parent(child) = walk.node.children[walk.next] {
            if let Some(below) = below {
                let back = walk.node.with_child(walk.next, Node::Parent(below.node));
                lemma_left_of_with(back, walk.node, walk.next, Node::Parent(below.node));
                let stopped = back.settled(walk.removed + below.removed);
                lemma_left_of_same(stopped, back);
                lemma_branch_left_of_left(stopped, back, walk.node);
                let rest = back.without_child(walk.next);
                lemma_left_of_without(rest, back, walk.next);
                lemma_branch_left_of_left(rest, back, walk.node);
            }
        }
    }
}

proof fn lemma_shape<T: RTreeObject, V: BacktrackingDrainVisitor<T>>(
    trail: Trail<T, V>,
    walk: Walk<T, V>,
    end: Walked<T, V>,
)
    requires
        trail.joins(Move::Go(walk), end),
        0 <= walk.next <= walk.node.children.len(),
    ensures
        end.node.is_left_of(walk.node),
    decreases trail,
{
    match trail {
        Trail::Over => {},
        Trail::Visit { next, rest } => {
            assert(rest.joins(next, end));
            lemma_shape_move(walk, None, next);
            if let Move::Go(then) = next {
                lemma_shape(*rest, then, end);
                lemma_branch_left_of_left(end.node, then.node, walk.node);
            }
        },
        Trail::Descend { trail, below, next, rest } => {
            assert(rest.joins(next, end));
            if let Node::Parent(child) = walk.node.children[walk.next] {
                lemma_shape(*trail, Walk::begin(child, walk.visitor), below);
            }
            lemma_shape_move(walk, Some(below), next);
            if let Move::Go(then) = next {
                lemma_shape(*rest, then, end);
                lemma_branch_left_of_left(end.node, then.node, walk.node);
            }
        },
    }
}

/// A traversal, stopped or not, leaves each object and each subtree that it does not take out below
/// its parent, at its depth and with its siblings.
pub proof fn law_traversal_keeps_the_shape<T: RTreeObject, V: BacktrackingDrainVisitor<T>>(
    node: Branch<T>,
    visitor: V,
    end: Walked<T, V>,
)
    requires
        traverses(node, visitor, end),
    ensures
        keeps_its_shape(end.node, node),
{
    let begin = Walk::begin(node, visitor);
    let trail = choose|trail: Trail<T, V>| #[trigger] trail.joins(Move::Go(begin), end);
    lemma_shape(trail, begin, end);
    lemma_keeps_its_shape(end.node, node);
}

/// The same of a removal.
pub proof fn law_visitor_keeps_the_shape<T: RTreeObject, V: BacktrackingDrainVisitor<T>>(
    before: Branch<T>,
    visitor: V,
    removed: nat,
    after: Branch<T>,
    left: V,
)
    requires
        drains(before, visitor, removed, after, left),
    ensures
        keeps_its_shape(after, before),
{
    match lemma_drains(before, visitor, removed, after, left) {
        Some(end) => law_traversal_keeps_the_shape(before, visitor, end),
        None => lemma_left_of_same(after, before),
    }
    lemma_keeps_its_shape(after, before);
}

/// Whether the subtrees below `end` have children and, unless something was removed since
/// `removed`, its children are those of `node`.
spec fn ends_full<T: RTreeObject, V>(end: Walked<T, V>, node: Branch<T>, removed: nat) -> bool {
    &&& all_full(end.node.children)
    &&& end.stopped ==> end.node.children.len() > 0
    &&& end.removed >= removed
    &&& end.removed == removed ==> end.node.children == node.children
    &&& end.removed == 0 ==> end.node == node
}

proof fn lemma_full_move<T: RTreeObject, V: BacktrackingDrainVisitor<T>>(
    walk: Walk<T, V>,
    below: Option<Walked<T, V>>,
    next: Move<T, V>,
)
    requires
        moves(walk, below, next),
        0 <= walk.next <= walk.node.children.len(),
        all_full(walk.node.children),
        below matches Some(b) ==> match walk.node.children[walk.next] {
            Node::Leaf(_) => true,
            Node::Parent(child) => ends_full(b, child, 0),
        },
    ensures
        match next {
            Move::Go(then) => {
                &&& 0 <= then.next <= then.node.children.len()
                &&& all_full(then.node.children)
                &&& then.removed >= walk.removed
                &&& then.removed == walk.removed ==> then.node == walk.node
            },
            Move::End(end) => ends_full(end, walk.node, walk.removed),
        },
{
    if walk.next < walk.node.children.len() {
        if let Some(below) = below {
            let back = walk.node.with_child(walk.next, Node::Parent(below.node));
            if below.removed == 0 {
                assert(back.children =~= walk.node.children);
            }
        }
    }
}

proof fn lemma_full<T: RTreeObject, V: BacktrackingDrainVisitor<T>>(
    trail: Trail<T, V>,
    walk: Walk<T, V>,
    end: Walked<T, V>,
)
    requires
        trail.joins(Move::Go(walk), end),
        0 <= walk.next <= walk.node.children.len(),
        all_full(walk.node.children),
    ensures
        ends_full(end, walk.node, walk.removed),
    decreases trail,
{
    match trail {
        Trail::Over => {},
        Trail::Visit { next, rest } => {
            assert(rest.joins(next, end));
            lemma_full_move(walk, None, next);
            if let Move::Go(then) = next {
                lemma_full(*rest, then, end);
            }
        },
        Trail::Descend { trail, below, next, rest } => {
            assert(rest.joins(next, end));
            if let Node::Parent(child) = walk.node.children[walk.next] {
                lemma_full(*trail, Walk::begin(child, walk.visitor), below);
            }
            lemma_full_move(walk, Some(below), next);
            if let Move::Go(then) = next {
                lemma_full(*rest, then, end);
            }
        },
    }
}

/// A traversal, stopped or not, leaves no empty subtree behind, if there was none. Where nothing is
/// removed the node is then left as it was.
pub proof fn law_traversal_leaves_no_empty_subtree<T: RTreeObject, V: BacktrackingDrainVisitor<T>>(
    node: Branch<T>,
    visitor: V,
    end: Walked<T, V>,
)
    requires
        traverses(node, visitor, end),
        all_full(node.children),
    ensures
        all_full(end.node.children),
        end.removed == 0 ==> end.node == node,
{
    let begin = Walk::begin(node, visitor);
    let trail = choose|trail: Trail<T, V>| #[trigger] trail.joins(Move::Go(begin), end);
    lemma_full(trail, begin, end);
}

/// The same of a removal.
pub proof fn law_visitor_leaves_no_empty_subtree<T: RTreeObject, V: BacktrackingDrainVisitor<T>>(
    before: Branch<T>,
    visitor: V,
    removed: nat,
    after: Branch<T>,
    left: V,
)
    requires
        drains(before, visitor, removed, after, left),
        all_full(before.children),
    ensures
        all_full(after.children),
        removed == 0 ==> after == before,
{
    if let Some(end) = lemma_drains(before, visitor, removed, after, left) {
        law_traversal_leaves_no_empty_subtree(before, visitor, end);
    }
}

/// What is left of the last node is left of the tree.
proof fn lemma_restored_left_of<T: RTreeObject>(frames: Seq<Frame<T>>, top: Frame<T>)
    requires
        frames.len() > 0,
        in_place(frames),
        top.node.is_left_of(frames.last().node),
    ensures
        restored(with_top(frames, top)).is_left_of(restored(frames)),
    decreases frames.len(),
{
    lemma_with_top(frames, top);
    if frames.len() > 1 {
        let rest = frames.drop_last();
        let above = rest.last();
        let node = Node::Parent(frames.last().node);
        let other = Node::Parent(top.node);
        let whole = holding(above, node);
        let left = holding(above, other);
        assert(left.node.children =~= whole.node.children.update(above.next, other));
        lemma_left_of_with(left.node, whole.node, above.next, other);
        lemma_with_top(rest, whole);
        assert(with_top(with_top(rest, whole), left) =~= with_top(rest, left));
        lemma_restored_left_of(with_top(rest, whole), left);
    }
}

proof fn lemma_shape_closed<T: RTreeObject>(frames: Seq<Frame<T>>, keep_place: bool)
    requires
        frames.len() > 0,
        in_place(frames),
    ensures
        match closed(frames, keep_place) {
            Step::Move(then) => restored(then).is_left_of(restored(frames)),
            Step::Yield(_, _) => false,
            Step::Finish(root, _) => root.is_left_of(restored(frames)),
        },
{
    let top = frames.last();
    let node = top.node.settled(top.removed);
    lemma_left_of_same(node, top.node);
    if frames.len() > 1 {
        let rest = frames.drop_last();
        let above = rest.last();
        let children = above.node.children;
        let i = above.next;
        let whole = holding(above, Node::Parent(top.node));
        let back = holding(above, Node::Parent(node));
        lemma_with_top(rest, whole);
        if let Step::Move(then) = closed(frames, keep_place) {
            let left = then.last();
            lemma_with_top(rest, left);
            assert(back.node.children =~= whole.node.children.update(i, Node::Parent(node)));
            lemma_left_of_with(back.node, whole.node, i, Node::Parent(node));
            if node.children.len() == 0 {
                assert(left.node.children =~= swap_removed(whole.node.children, i));
                lemma_left_of_without(left.node, whole.node, i);
            } else if keep_place {
                lemma_left_of_same(left.node, back.node);
                lemma_branch_left_of_left(left.node, back.node, whole.node);
            } else {
                assert(left.node.children =~= back.node.children.update(
                    i,
                    back.node.children.last(),
                ).update(back.node.children.len() - 1, back.node.children[i]));
                lemma_left_of_swapped(left.node, back.node, i);
                lemma_branch_left_of_left(left.node, back.node, whole.node);
            }
            assert(with_top(with_top(rest, whole), left) =~= then);
            lemma_restored_left_of(with_top(rest, whole), left);
        }
    }
}

proof fn lemma_shape_step<T: RTreeObject, R: SelectionFunction<T>>(
    function: R,
    frames: Seq<Frame<T>>,
    step: Step<T>,
)
    requires
        frames.len() > 0,
        in_place(frames),
        steps(function, frames, step),
    ensures
        match step {
            Step::Move(then) => restored(then).is_left_of(restored(frames)),
            Step::Yield(_, then) => restored(then).is_left_of(restored(frames)),
            Step::Finish(root, _) => root.is_left_of(restored(frames)),
        },
{
    lemma_shape_closed(frames, true);
    let top = frames.last();
    let children = top.node.children;
    let i = top.next;
    if opens(function, top, true) && i < children.len() && takes(function, frames, step) {
        let without = Frame { node: top.node.without_child(i), ..top };
        match children[i] {
            Node::Parent(child) => {
                let shorter = with_top(frames, without);
                let then = shorter.push(Frame { node: child, next: 0, removed: 0 });
                lemma_with_top(frames, without);
                assert(then.drop_last() =~= shorter);
                assert(placed(without.node.children, i, children[i]) =~= children);
                assert(with_top(shorter, holding(without, children[i])) =~= frames);
                lemma_left_of_same(restored(then), restored(frames));
            },
            Node::Leaf(leaf) => {
                let taken = Frame { removed: top.removed + 1, ..without };
                let passed = Frame { next: i + 1, ..top };
                lemma_left_of_without(taken.node, top.node, i);
                lemma_restored_left_of(frames, taken);
                lemma_left_of_same(passed.node, top.node);
                lemma_restored_left_of(frames, passed);
            },
        }
    }
}

/// Whether what is being drained is left of `root`.
spec fn shaped_in<T: RTreeObject>(root: Branch<T>, frames: Seq<Frame<T>>) -> bool {
    restored(frames).is_left_of(root)
}

proof fn lemma_shape_is_kept<T: RTreeObject, R: SelectionFunction<T>>(function: R, root: Branch<T>)
    ensures
        is_kept_by_steps(function, |frames: Seq<Frame<T>>| shaped_in(root, frames)),
{
    assert forall|frames: Seq<Frame<T>>, step: Step<T>|
        frames.len() > 0 && in_place(frames) && shaped_in(root, frames) && #[trigger] steps(
            function,
            frames,
            step,
        ) implies match step {
        Step::Move(then) => shaped_in(root, then),
        Step::Yield(_, then) => shaped_in(root, then),
        Step::Finish(_, _) => true,
    } by {
        lemma_shape_step(function, frames, step);
        match step {
            Step::Move(then) => {
                lemma_branch_left_of_left(restored(then), restored(frames), root);
            },
            Step::Yield(_, then) => {
                lemma_branch_left_of_left(restored(then), restored(frames), root);
            },
            Step::Finish(_, _) => {},
        }
    }
}

proof fn lemma_shape_collapsed<T: RTreeObject>(frames: Seq<Frame<T>>)
    requires
        frames.len() > 0,
        in_place(frames),
    ensures
        collapsed(frames).0.is_left_of(restored(frames)),
    decreases frames.len(),
{
    lemma_closed(frames, false);
    lemma_shape_closed(frames, false);
    if let Step::Move(rest) = closed(frames, false) {
        lemma_shape_collapsed(rest);
        lemma_branch_left_of_left(collapsed(frames).0, restored(rest), restored(frames));
    }
}

/// A drain leaves each object and each subtree that it does not take out below its parent, at its
/// depth and with its siblings: when the iterator is dropped, at any point.
pub proof fn law_drop_keeps_the_shape<T: RTreeObject, R: SelectionFunction<T>>(
    function: R,
    root: Branch<T>,
    objects: Seq<T>,
    then: Seq<Frame<T>>,
)
    requires
        yields(function, start(root), objects, then),
    ensures
        keeps_its_shape(collapsed(then).0, root),
{
    let holds = |frames: Seq<Frame<T>>| shaped_in(root, frames);
    lemma_start(root);
    lemma_left_of_same(root, root);
    lemma_shape_is_kept::<T, R>(function, root);
    lemma_after_yields(function, holds, start(root), objects, then);
    lemma_shape_collapsed(then);
    lemma_branch_left_of_left(collapsed(then).0, restored(then), root);
    lemma_keeps_its_shape(collapsed(then).0, root);
}

/// The same of a drain to the end.
pub proof fn law_finish_keeps_the_shape<T: RTreeObject, R: SelectionFunction<T>>(
    function: R,
    root: Branch<T>,
    objects: Seq<T>,
    then: Seq<Frame<T>>,
    after: Branch<T>,
    removed: nat,
)
    requires
        yields(function, start(root), objects, then),
        advances(function, then, Step::Finish(after, removed)),
    ensures
        keeps_its_shape(after, root),
{
    let holds = |frames: Seq<Frame<T>>| shaped_in(root, frames);
    lemma_start(root);
    lemma_left_of_same(root, root);
    lemma_shape_is_kept::<T, R>(function, root);
    lemma_after_yields(function, holds, start(root), objects, then);
    let end = Step::Finish(after, removed);
    let last = lemma_before_last_step(function, holds, then, end);
    lemma_shape_step(function, last, end);
    lemma_branch_left_of_left(after, restored(last), root);
    lemma_keeps_its_shape(after, root);
}

/// Whether the subtrees below the nodes have children.
pub open spec fn full_in<T: RTreeObject>(frames: Seq<Frame<T>>) -> bool {
    forall|i: int| 0 <= i < frames.len() ==> all_full((#[trigger] frames[i]).node.children)
}

proof fn lemma_full_closed<T: RTreeObject>(frames: Seq<Frame<T>>, keep_place: bool)
    requires
        frames.len() > 0,
        in_place(frames),
        full_in(frames),
    ensures
        match closed(frames, keep_place) {
            Step::Move(then) => full_in(then),
            Step::Yield(_, _) => false,
            Step::Finish(root, _) => all_full(root.children),
        },
{
    if let Step::Move(then) = closed(frames, keep_place) {
        let rest = frames.drop_last();
        lemma_with_top(rest, then.last());
    }
}

pub proof fn lemma_full_is_kept<T: RTreeObject, R: SelectionFunction<T>>(function: R)
    ensures
        is_kept_by_steps(function, |frames: Seq<Frame<T>>| full_in(frames)),
{
    assert forall|frames: Seq<Frame<T>>, step: Step<T>|
        frames.len() > 0 && in_place(frames) && full_in(frames) && #[trigger] steps(
            function,
            frames,
            step,
        ) implies match step {
        Step::Move(then) => full_in(then),
        Step::Yield(_, then) => full_in(then),
        Step::Finish(_, _) => true,
    } by {
        lemma_full_closed(frames, true);
        lemma_step(function, frames, step);
    }
}

proof fn lemma_full_collapsed<T: RTreeObject>(frames: Seq<Frame<T>>)
    requires
        frames.len() > 0,
        in_place(frames),
        full_in(frames),
    ensures
        all_full(collapsed(frames).0.children),
    decreases frames.len(),
{
    lemma_closed(frames, false);
    lemma_full_closed(frames, false);
    if let Step::Move(rest) = closed(frames, false) {
        lemma_full_collapsed(rest);
    }
}

/// A drain leaves no empty subtree behind, if there was none: when the iterator is dropped, at any
/// point.
pub proof fn law_drop_leaves_no_empty_subtree<T: RTreeObject, R: SelectionFunction<T>>(
    function: R,
    root: Branch<T>,
    objects: Seq<T>,
    then: Seq<Frame<T>>,
)
    requires
        all_full(root.children),
        yields(function, start(root), objects, then),
    ensures
        all_full(collapsed(then).0.children),
{
    let holds = |frames: Seq<Frame<T>>| full_in(frames);
    lemma_start(root);
    lemma_full_is_kept::<T, R>(function);
    lemma_after_yields(function, holds, start(root), objects, then);
    lemma_full_collapsed(then);
}

/// The same of a drain to the end.
pub proof fn law_finish_leaves_no_empty_subtree<T: RTreeObject, R: SelectionFunction<T>>(
    function: R,
    root: Branch<T>,
    objects: Seq<T>,
    then: Seq<Frame<T>>,
    after: Branch<T>,
    removed: nat,
)
    requires
        all_full(root.children),
        yields(function, start(root), objects, then),
        advances(function, then, Step::Finish(after, removed)),
    ensures
        all_full(after.children),
{
    let holds = |frames: Seq<Frame<T>>| full_in(frames);
    lemma_start(root);
    lemma_full_is_kept::<T, R>(function);
    lemma_after_yields(function, holds, start(root), objects, then);
    let end = Step::Finish(after, removed);
    let last = lemma_before_last_step(function, holds, then, end);
    lemma_full_closed(last, true);
}

} // verus!
