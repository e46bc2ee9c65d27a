//! What a drain does to the envelopes of the tree.

use crate::drain_laws::{
    is_kept_by_steps, law_drop_removes_only_what_was_yielded,
    law_finish_removes_only_what_was_yielded, lemma_after_yields, lemma_before_last_step, yields,
};
use crate::drain_steps::{
    advances, closed, collapsed, holding, in_place, lemma_closed, lemma_start, lemma_with_top,
    opens, placed, start, steps, takes, with_top, Frame, Step,
};
use crate::model::{
    all_tidy, all_tight, envelope_of, lemma_envelope_swap_remove, swap_removed, Branch,
    Node,
};
use crate::object::{joins_in_any_order, merges_freely, Envelope, RTreeObject};
use crate::selection::SelectionFunction;
use vstd::prelude::*;

verus! {

/// Whether the nodes are tidy with the children that are being drained in turn put back, unless an
/// object was removed at or below them; `below` is the child that the last one is without, and
/// `removed` were removed below that.
spec fn tidy_above<T: RTreeObject>(
    frames: Seq<Frame<T>>,
    below: Branch<T>,
    removed: nat,
) -> bool
    decreases frames.len(),
{
    if frames.len() == 0 {
        true
    } else {
        let frame = frames.last();
        let node = holding(frame, Node::Parent(below)).node;
        &&& all_tidy(frame.node.children)
        &&& removed + frame.removed == 0 ==> node.envelope == envelope_of(node.children)
        &&& tidy_above(frames.drop_last(), node, removed + frame.removed)
    }
}

/// Whether the nodes are tidy but for what is to be put in order when they are put back.
spec fn tidy_in<T: RTreeObject>(frames: Seq<Frame<T>>) -> bool {
    let top = frames.last();
    &&& all_tidy(top.node.children)
    &&& top.removed == 0 ==> top.node.is_tidy() && (frames.len() > 1 ==> top.node.children.len()
        > 0)
    &&& tidy_above(frames.drop_last(), top.node, top.removed)
}

/// What is removed further below only leaves more to be put in order.
proof fn lemma_tidy_above_more<T: RTreeObject>(
    frames: Seq<Frame<T>>,
    below: Branch<T>,
    removed: nat,
    other: Branch<T>,
    more: nat,
)
    requires
        tidy_above(frames, below, removed),
        removed <= more,
        more == 0 ==> other == below,
    ensures
        tidy_above(frames, other, more),
    decreases frames.len(),
{
    if frames.len() > 0 {
        let frame = frames.last();
        lemma_tidy_above_more(
            frames.drop_last(),
            holding(frame, Node::Parent(below)).node,
            removed + frame.removed,
            holding(frame, Node::Parent(other)).node,
            more + frame.removed,
        );
    }
}

proof fn lemma_tidy_closed<T: RTreeObject>(frames: Seq<Frame<T>>, keep_place: bool)
    requires
        frames.len() > 0,
        in_place(frames),
        tidy_in(frames),
        keep_place || frames.len() == 1 || frames.last().removed > 0,
    ensures
        match closed(frames, keep_place) {
            Step::Move(then) => tidy_in(then),
            Step::Yield(_, _) => false,
            Step::Finish(root, _) => root.is_tidy(),
        },
{
    let top = frames.last();
    let node = top.node.settled(top.removed);
    if frames.len() > 1 {
        let rest = frames.drop_last();
        let above = rest.last();
        if let Step::Move(then) = closed(frames, keep_place) {
            lemma_with_top(rest, then.last());
            lemma_tidy_above_more(
                rest.drop_last(),
                holding(above, Node::Parent(top.node)).node,
                above.removed + top.removed,
                then.last().node,
                above.removed + top.removed,
            );
        }
    }
}

proof fn lemma_tidy_step<T: RTreeObject, R: SelectionFunction<T>>(
    function: R,
    frames: Seq<Frame<T>>,
    step: Step<T>,
)
    requires
        frames.len() > 0,
        in_place(frames),
        tidy_in(frames),
        steps(function, frames, step),
    ensures
        match step {
            Step::Move(then) => tidy_in(then),
            Step::Yield(_, then) => tidy_in(then),
            Step::Finish(root, _) => root.is_tidy(),
        },
{
    lemma_tidy_closed(frames, true);
    let top = frames.last();
    let children = top.node.children;
    let i = top.next;
    if opens(function, top, true) && i < children.len() && takes(function, frames, step) {
        let without = Frame { node: top.node.without_child(i), ..top };
        match children[i] {
            Node::Parent(child) => {
                let shorter = with_top(frames, without);
                let then = shorter.push(Frame { node: child, next: 0, removed: 0 });
                lemma_with_top(frames, without);
                assert(then.drop_last() =~= shorter);
                assert(placed(without.node.children, i, children[i]) =~= children);
            },
            Node::Leaf(leaf) => {
                let taken = Frame { removed: top.removed + 1, ..without };
                let passed = Frame { next: i + 1, ..top };
                lemma_with_top(frames, taken);
                lemma_with_top(frames, passed);
                lemma_tidy_above_more(
                    frames.drop_last(),
                    top.node,
                    top.removed,
                    taken.node,
                    top.removed + 1,
                );
            },
        }
    }
}

proof fn lemma_tidy_is_kept<T: RTreeObject, R: SelectionFunction<T>>(function: R)
    ensures
        is_kept_by_steps(function, |frames: Seq<Frame<T>>| tidy_in(frames)),
{
    assert forall|frames: Seq<Frame<T>>, step: Step<T>|
        frames.len() > 0 && in_place(frames) && tidy_in(frames) && #[trigger] steps(
            function,
            frames,
            step,
        ) implies match step {
        Step::Move(then) => tidy_in(then),
        Step::Yield(_, then) => tidy_in(then),
        Step::Finish(_, _) => true,
    } by {
        lemma_tidy_step(function, frames, step);
    }
}

proof fn lemma_tidy_collapsed<T: RTreeObject>(frames: Seq<Frame<T>>)
    requires
        frames.len() > 0,
        in_place(frames),
        tidy_in(frames),
        frames.len() == 1 || frames.last().removed > 0,
    ensures
        collapsed(frames).0.is_tidy(),
    decreases frames.len(),
{
    lemma_closed(frames, false);
    lemma_tidy_closed(frames, false);
    if let Step::Move(rest) = closed(frames, false) {
        lemma_with_top(frames.drop_last(), rest.last());
        lemma_tidy_collapsed(rest);
    }
}

proof fn lemma_tidy_holds_leaves<T: RTreeObject>(node: Node<T>)
    requires
        node.is_tidy(),
    ensures
        node.leaves().len() > 0,
    decreases node,
{
    if let Node::Parent(branch) = node {
        lemma_tidy_holds_leaves(branch.children.last());
    }
}

/// A tidy tree without objects is empty, and has the envelope that contains nothing.
pub proof fn law_tidy_tree_without_objects_is_empty<T: RTreeObject>(root: Branch<T>)
    requires
        root.is_tidy(),
        root.leaves().len() == 0,
    ensures
        root.children.len() == 0,
        root.envelope == T::Envelope::nothing(),
{
    if root.children.len() > 0 {
        lemma_tidy_holds_leaves(root.children.last());
    }
}

/// A drain leaves no empty subtree behind, and each node has the envelope around its children, if
/// that held before: when the iterator is dropped, at any point. If all objects were yielded, the
/// tree is empty, and has the envelope that contains nothing.
pub proof fn law_drop_keeps_the_tree_tidy<T: RTreeObject, R: SelectionFunction<T>>(
    function: R,
    root: Branch<T>,
    objects: Seq<T>,
    then: Seq<Frame<T>>,
)
    requires
        root.is_tidy(),
        yields(function, start(root), objects, then),
    ensures
        collapsed(then).0.is_tidy(),
        objects.len() == root.leaves().len() ==> collapsed(then).0.children.len() == 0
            && collapsed(then).0.envelope == T::Envelope::nothing(),
{
    let holds = |frames: Seq<Frame<T>>| tidy_in(frames);
    lemma_start(root);
    lemma_tidy_is_kept::<T, R>(function);
    lemma_after_yields(function, holds, start(root), objects, then);
    lemma_tidy_collapsed(then);
    law_drop_removes_only_what_was_yielded(function, root, objects, then);
    if objects.len() == root.leaves().len() {
        law_tidy_tree_without_objects_is_empty(collapsed(then).0);
    }
}

/// The same of a drain to the end.
pub proof fn law_finish_keeps_the_tree_tidy<T: RTreeObject, R: SelectionFunction<T>>(
    function: R,
    root: Branch<T>,
    objects: Seq<T>,
    then: Seq<Frame<T>>,
    after: Branch<T>,
    removed: nat,
)
    requires
        root.is_tidy(),
        yields(function, start(root), objects, then),
        advances(function, then, Step::Finish(after, removed)),
    ensures
        after.is_tidy(),
        objects.len() == root.leaves().len() ==> after.children.len() == 0 && after.envelope
            == T::Envelope::nothing(),
{
    let holds = |frames: Seq<Frame<T>>| tidy_in(frames);
    lemma_start(root);
    lemma_tidy_is_kept::<T, R>(function);
    lemma_after_yields(function, holds, start(root), objects, then);
    let end = Step::Finish(after, removed);
    let last = lemma_before_last_step(function, holds, then, end);
    lemma_tidy_step(function, last, end);
    law_finish_removes_only_what_was_yielded(function, root, objects, then, after, removed);
    if objects.len() == root.leaves().len() {
        law_tidy_tree_without_objects_is_empty(after);
    }
}

/// Whether the nodes are tight but for the child that is being drained in turn, which has the
/// envelope `below`, unless an object was removed at or below them; `removed` were removed below
/// that child.
spec fn tight_above<T: RTreeObject>(
    frames: Seq<Frame<T>>,
    below: T::Envelope,
    removed: nat,
) -> bool
    decreases frames.len(),
{
    if frames.len() == 0 {
        true
    } else {
        let frame = frames.last();
        &&& all_tight(frame.node.children)
        &&& removed + frame.removed == 0 ==> frame.node.envelope == envelope_of(
            frame.node.children,
        ).join(below)
        &&& tight_above(frames.drop_last(), frame.node.envelope, removed + frame.removed)
    }
}

/// Whether the nodes are tight but for what is to be put in order when they are put back.
spec fn tight_in<T: RTreeObject>(frames: Seq<Frame<T>>) -> bool {
    let top = frames.last();
    &&& all_tight(top.node.children)
    &&& top.removed == 0 ==> top.node.is_tight()
    &&& tight_above(frames.drop_last(), top.node.envelope, top.removed)
}

proof fn lemma_tight_above_more<T: RTreeObject>(
    frames: Seq<Frame<T>>,
    below: T::Envelope,
    removed: nat,
    more: nat,
)
    requires
        tight_above(frames, below, removed),
        removed <= more,
    ensures
        tight_above(frames, below, more),
    decreases frames.len(),
{
    if frames.len() > 0 {
        let frame = frames.last();
        lemma_tight_above_more(
            frames.drop_last(),
            frame.node.envelope,
            removed + frame.removed,
            more + frame.removed,
        );
    }
}

proof fn lemma_envelope_placed<T: RTreeObject>(children: Seq<Node<T>>, i: int, node: Node<T>)
    requires
        joins_in_any_order::<T::Envelope>(),
        0 <= i <= children.len(),
    ensures
        envelope_of(placed(children, i, node)) == envelope_of(children).join(node.envelope()),
{
    let after = placed(children, i, node);
    if i < children.len() {
        assert(swap_removed(after, i) =~= children);
        lemma_envelope_swap_remove(after, i);
    } else {
        assert(after.drop_last() =~= children);
    }
}

proof fn lemma_tight_closed<T: RTreeObject>(frames: Seq<Frame<T>>, keep_place: bool)
    requires
        merges_freely::<T::Envelope>(),
        frames.len() > 0,
        in_place(frames),
        tight_in(frames),
    ensures
        match closed(frames, keep_place) {
            Step::Move(then) => tight_in(then),
            Step::Yield(_, _) => false,
            Step::Finish(root, _) => root.is_tight(),
        },
{
    let top = frames.last();
    let node = top.node.settled(top.removed);
    if frames.len() > 1 {
        let rest = frames.drop_last();
        let above = rest.last();
        let children = above.node.children;
        let back = Node::Parent(node);
        lemma_envelope_placed(children, above.next, back);
        assert(children.push(back).drop_last() =~= children);
        if let Step::Move(then) = closed(frames, keep_place) {
            lemma_with_top(rest, then.last());
        }
    }
}

proof fn lemma_tight_step<T: RTreeObject, R: SelectionFunction<T>>(
    function: R,
    frames: Seq<Frame<T>>,
    step: Step<T>,
)
    requires
        merges_freely::<T::Envelope>(),
        frames.len() > 0,
        in_place(frames),
        tight_in(frames),
        steps(function, frames, step),
    ensures
        match step {
            Step::Move(then) => tight_in(then),
            Step::Yield(_, then) => tight_in(then),
            Step::Finish(root, _) => root.is_tight(),
        },
{
    lemma_tight_closed(frames, true);
    let top = frames.last();
    let children = top.node.children;
    let i = top.next;
    if opens(function, top, true) && i < children.len() && takes(function, frames, step) {
        let without = Frame { node: top.node.without_child(i), ..top };
        match children[i] {
            Node::Parent(child) => {
                let shorter = with_top(frames, without);
                let then = shorter.push(Frame { node: child, next: 0, removed: 0 });
                lemma_with_top(frames, without);
                assert(then.drop_last() =~= shorter);
                lemma_envelope_swap_remove(children, i);
            },
            Node::Leaf(leaf) => {
                let taken = Frame { removed: top.removed + 1, ..without };
                let passed = Frame { next: i + 1, ..top };
                lemma_with_top(frames, taken);
                lemma_with_top(frames, passed);
                lemma_tight_above_more(
                    frames.drop_last(),
                    top.node.envelope,
                    top.removed,
                    top.removed + 1,
                );
            },
        }
    }
}

proof fn lemma_tight_is_kept<T: RTreeObject, R: SelectionFunction<T>>(function: R)
    requires
        merges_freely::<T::Envelope>(),
    ensures
        is_kept_by_steps(function, |frames: Seq<Frame<T>>| tight_in(frames)),
{
    assert forall|frames: Seq<Frame<T>>, step: Step<T>|
        frames.len() > 0 && in_place(frames) && tight_in(frames) && #[trigger] steps(
            function,
            frames,
            step,
        ) implies match step {
        Step::Move(then) => tight_in(then),
        Step::Yield(_, then) => tight_in(then),
        Step::Finish(_, _) => true,
    } by {
        lemma_tight_step(function, frames, step);
    }
}

proof fn lemma_tight_collapsed<T: RTreeObject>(frames: Seq<Frame<T>>)
    requires
        merges_freely::<T::Envelope>(),
        frames.len() > 0,
        in_place(frames),
        tight_in(frames),
    ensures
        collapsed(frames).0.is_tight(),
    decreases frames.len(),
{
    lemma_closed(frames, false);
    lemma_tight_closed(frames, false);
    if let Step::Move(rest) = closed(frames, false) {
        lemma_tight_collapsed(rest);
    }
}

/// A drain of a tree that may hold empty subtrees leaves each node with the envelope around its
/// children, if that held before: when the iterator is dropped, at any point. An empty subtree that
/// is met is taken out and no envelope is computed anew for that, so it must make no difference to
/// an envelope.
pub proof fn law_drop_keeps_the_tree_tight<T: RTreeObject, R: SelectionFunction<T>>(
    function: R,
    root: Branch<T>,
    objects: Seq<T>,
    then: Seq<Frame<T>>,
)
    requires
        merges_freely::<T::Envelope>(),
        root.is_tight(),
        yields(function, start(root), objects, then),
    ensures
        collapsed(then).0.is_tight(),
{
    let holds = |frames: Seq<Frame<T>>| tight_in(frames);
    lemma_start(root);
    lemma_tight_is_kept::<T, R>(function);
    lemma_after_yields(function, holds, start(root), objects, then);
    lemma_tight_collapsed(then);
}

/// The same of a drain to the end.
pub proof fn law_finish_keeps_the_tree_tight<T: RTreeObject, R: SelectionFunction<T>>(
    function: R,
    root: Branch<T>,
    objects: Seq<T>,
    then: Seq<Frame<T>>,
    after: Branch<T>,
    removed: nat,
)
    requires
        merges_freely::<T::Envelope>(),
        root.is_tight(),
        yields(function, start(root), objects, then),
        advances(function, then, Step::Finish(after, removed)),
    ensures
        after.is_tight(),
{
    let holds = |frames: Seq<Frame<T>>| tight_in(frames);
    lemma_start(root);
    lemma_tight_is_kept::<T, R>(function);
    lemma_after_yields(function, holds, start(root), objects, then);
    let end = Step::Finish(after, removed);
    let last = lemma_before_last_step(function, holds, then, end);
    lemma_tight_step(function, last, end);
}

} // verus!
