//! What holds of every drain.

use crate::drain_steps::{
    advances, closed, collapsed, in_place, leaves_in, lemma_closed, lemma_start, lemma_step,
    lemma_with_top, opens, passes, placed, removed_in, restored, start, steps, takes, with_top,
    Frame, Step,
};
use crate::model::{all_full, swap_removed, Branch, Choice, Node};
use crate::object::RTreeObject;
use crate::selection::SelectionFunction;
use vstd::multiset::Multiset;
use vstd::prelude::*;

verus! {

/// Whether a drain of `frames` may yield `objects`, one after the other, and come to `then`.
pub open spec fn yields<T: RTreeObject, R: SelectionFunction<T>>(
    function: R,
    frames: Seq<Frame<T>>,
    objects: Seq<T>,
    then: Seq<Frame<T>>,
) -> bool
    decreases objects.len(),
{
    if objects.len() == 0 {
        then == frames
    } else {
        exists|next: Seq<Frame<T>>| #[trigger]
            advances(function, frames, Step::Yield(objects[0], next)) && yields(
                function,
                next,
                objects.drop_first(),
                then,
            )
    }
}

proof fn lemma_passes<T: RTreeObject, R: SelectionFunction<T>>(
    function: R,
    frames: Seq<Frame<T>>,
    path: Seq<Seq<Frame<T>>>,
    end: Step<T>,
)
    requires
        frames.len() > 0,
        in_place(frames),
        passes(function, frames, path, end),
    ensures
        match end {
            Step::Move(_) => false,
            Step::Yield(object, then) => {
                &&& then.len() > 0
                &&& in_place(then)
                &&& leaves_in(frames) == leaves_in(then).insert(object)
                &&& removed_in(then) == removed_in(frames) + 1
            },
            Step::Finish(root, removed) => {
                &&& root.leaves() == leaves_in(frames)
                &&& removed == removed_in(frames)
            },
        },
    decreases path.len(),
{
    if path.len() == 0 {
        lemma_step(function, frames, end);
    } else {
        lemma_step(function, frames, Step::Move(path[0]));
        lemma_passes(function, path[0], path.drop_first(), end);
    }
}

/// A drain removes the object that it yields, and nothing else. At its end the tree holds what was
/// not removed.
pub proof fn law_next_removes_only_what_it_yields<T: RTreeObject, R: SelectionFunction<T>>(
    function: R,
    frames: Seq<Frame<T>>,
    end: Step<T>,
)
    requires
        frames.len() > 0,
        in_place(frames),
        advances(function, frames, end),
    ensures
        match end {
            Step::Move(_) => false,
            Step::Yield(object, then) => {
                &&& then.len() > 0
                &&& in_place(then)
                &&& leaves_in(frames) == leaves_in(then).insert(object)
                &&& removed_in(then) == removed_in(frames) + 1
            },
            Step::Finish(root, removed) => {
                &&& root.leaves() == leaves_in(frames)
                &&& removed == removed_in(frames)
            },
        },
{
    let path = choose|path: Seq<Seq<Frame<T>>>| #[trigger] passes(function, frames, path, end);
    lemma_passes(function, frames, path, end);
}

proof fn lemma_first<T>(objects: Seq<T>)
    requires
        objects.len() > 0,
    ensures
        objects.to_multiset() == objects.drop_first().to_multiset().insert(objects[0]),
{
    broadcast use vstd::seq_lib::group_to_multiset_ensures;

    assert(objects.drop_first() =~= objects.remove(0));
}

proof fn lemma_yields<T: RTreeObject, R: SelectionFunction<T>>(
    function: R,
    frames: Seq<Frame<T>>,
    objects: Seq<T>,
    then: Seq<Frame<T>>,
)
    requires
        frames.len() > 0,
        in_place(frames),
        yields(function, frames, objects, then),
    ensures
        then.len() > 0,
        in_place(then),
        leaves_in(frames) == leaves_in(then).add(objects.to_multiset()),
        removed_in(then) == removed_in(frames) + objects.len(),
    decreases objects.len(),
{
    broadcast use vstd::seq_lib::group_to_multiset_ensures;

    if objects.len() > 0 {
        let next = choose|next: Seq<Frame<T>>| #[trigger]
            advances(function, frames, Step::Yield(objects[0], next)) && yields(
                function,
                next,
                objects.drop_first(),
                then,
            );
        law_next_removes_only_what_it_yields(function, frames, Step::Yield(objects[0], next));
        lemma_yields(function, next, objects.drop_first(), then);
        lemma_first(objects);
    }
}

proof fn lemma_collapsed<T: RTreeObject>(frames: Seq<Frame<T>>)
    requires
        frames.len() > 0,
        in_place(frames),
    ensures
        collapsed(frames).0.leaves() == leaves_in(frames),
        collapsed(frames).1 == removed_in(frames),
    decreases frames.len(),
{
    lemma_closed(frames, false);
    if let Step::Move(rest) = closed(frames, false) {
        lemma_collapsed(rest);
    }
}

/// Dropping the iterator at any point removes only the yielded values: what was yielded and what
/// the tree holds then make up what it held before.
pub proof fn law_drop_removes_only_what_was_yielded<T: RTreeObject, R: SelectionFunction<T>>(
    function: R,
    root: Branch<T>,
    objects: Seq<T>,
    then: Seq<Frame<T>>,
)
    requires
        yields(function, start(root), objects, then),
    ensures
        collapsed(then).0.leaves().add(objects.to_multiset()) == root.leaves(),
        collapsed(then).0.leaves().len() + objects.len() == root.leaves().len(),
        collapsed(then).1 == objects.len(),
{
    broadcast use vstd::seq_lib::group_to_multiset_ensures;

    lemma_start(root);
    lemma_yields(function, start(root), objects, then);
    lemma_collapsed(then);
}

/// The same of a drain to the end.
pub proof fn law_finish_removes_only_what_was_yielded<T: RTreeObject, R: SelectionFunction<T>>(
    function: R,
    root: Branch<T>,
    objects: Seq<T>,
    then: Seq<Frame<T>>,
    after: Branch<T>,
    removed: nat,
)
    requires
        yields(function, start(root), objects, then),
        advances(function, then, Step::Finish(after, removed)),
    ensures
        after.leaves().add(objects.to_multiset()) == root.leaves(),
        after.leaves().len() + objects.len() == root.leaves().len(),
        removed == objects.len(),
{
    broadcast use vstd::seq_lib::group_to_multiset_ensures;

    lemma_start(root);
    lemma_yields(function, start(root), objects, then);
    law_next_removes_only_what_it_yields(function, then, Step::Finish(after, removed));
}

/// Whether `holds` stays true of the nodes that are being drained, step by step.
pub open spec fn is_kept_by_steps<T: RTreeObject, R: SelectionFunction<T>>(
    function: R,
    holds: spec_fn(Seq<Frame<T>>) -> bool,
) -> bool {
    forall|frames: Seq<Frame<T>>, step: Step<T>|
        frames.len() > 0 && in_place(frames) && holds(frames) && #[trigger] steps(
            function,
            frames,
            step,
        ) ==> match step {
            Step::Move(then) => holds(then),
            Step::Yield(_, then) => holds(then),
            Step::Finish(_, _) => true,
        }
}

/// What each step keeps true is true before the last step to an object, or to the end.
pub proof fn lemma_before_last_step<T: RTreeObject, R: SelectionFunction<T>>(
    function: R,
    holds: spec_fn(Seq<Frame<T>>) -> bool,
    frames: Seq<Frame<T>>,
    end: Step<T>,
) -> (last: Seq<Frame<T>>)
    requires
        is_kept_by_steps(function, holds),
        frames.len() > 0,
        in_place(frames),
        holds(frames),
        advances(function, frames, end),
    ensures
        last.len() > 0,
        in_place(last),
        holds(last),
        !(end is Move),
        steps(function, last, end),
{
    let path = choose|path: Seq<Seq<Frame<T>>>| #[trigger] passes(function, frames, path, end);
    lemma_last_of_path(function, holds, frames, path, end)
}

proof fn lemma_last_of_path<T: RTreeObject, R: SelectionFunction<T>>(
    function: R,
    holds: spec_fn(Seq<Frame<T>>) -> bool,
    frames: Seq<Frame<T>>,
    path: Seq<Seq<Frame<T>>>,
    end: Step<T>,
) -> (last: Seq<Frame<T>>)
    requires
        is_kept_by_steps(function, holds),
        frames.len() > 0,
        in_place(frames),
        holds(frames),
        passes(function, frames, path, end),
    ensures
        last.len() > 0,
        in_place(last),
        holds(last),
        !(end is Move),
        steps(function, last, end),
    decreases path.len(),
{
    if path.len() == 0 {
        frames
    } else {
        lemma_step(function, frames, Step::Move(path[0]));
        lemma_last_of_path(function, holds, path[0], path.drop_first(), end)
    }
}

/// What each step keeps true is true after any number of objects.
pub proof fn lemma_after_yields<T: RTreeObject, R: SelectionFunction<T>>(
    function: R,
    holds: spec_fn(Seq<Frame<T>>) -> bool,
    frames: Seq<Frame<T>>,
    objects: Seq<T>,
    then: Seq<Frame<T>>,
)
    requires
        is_kept_by_steps(function, holds),
        frames.len() > 0,
        in_place(frames),
        holds(frames),
        yields(function, frames, objects, then),
    ensures
        then.len() > 0,
        in_place(then),
        holds(then),
        objects.len() == 0 ==> then == frames,
        objects.len() > 0 ==> then.last().removed > 0,
    decreases objects.len(),
{
    if objects.len() > 0 {
        let next = choose|next: Seq<Frame<T>>| #[trigger]
            advances(function, frames, Step::Yield(objects[0], next)) && yields(
                function,
                next,
                objects.drop_first(),
                then,
            );
        let end = Step::Yield(objects[0], next);
        let last = lemma_before_last_step(function, holds, frames, end);
        lemma_step(function, last, end);
        lemma_closed(last, true);
        lemma_after_yields(function, holds, next, objects.drop_first(), then);
    }
}

/// Whether `function` selects by `choice`.
pub open spec fn selects_by<T: RTreeObject, R: SelectionFunction<T>>(
    function: R,
    choice: Choice<T>,
) -> bool {
    &&& forall|envelope: T::Envelope, answer: bool| #[trigger]
        call_ensures(R::should_unpack_parent, (&function, &envelope), answer) ==> answer == (
        choice.parents)(envelope)
    &&& forall|leaf: T, answer: bool| #[trigger]
        call_ensures(R::should_unpack_leaf, (&function, &leaf), answer) ==> answer == (
        choice.objects)(leaf)
}

/// Whether the children of the node are looked at.
pub open spec fn is_open<T: RTreeObject>(choice: Choice<T>, frame: Frame<T>) -> bool {
    frame.next > 0 || (choice.parents)(frame.node.envelope)
}

/// Whether the children of each node but the last are looked at.
pub open spec fn all_open<T: RTreeObject>(choice: Choice<T>, frames: Seq<Frame<T>>) -> bool {
    forall|i: int| 0 <= i < frames.len() - 1 ==> is_open(choice, #[trigger] frames[i])
}

/// The chosen objects below the node that were not dealt with.
spec fn pending<T: RTreeObject>(choice: Choice<T>, frame: Frame<T>) -> Multiset<T> {
    if is_open(choice, frame) {
        choice.among_all(frame.node.children.skip(frame.next))
    } else {
        Multiset::empty()
    }
}

/// The chosen objects below any of the nodes that were not dealt with.
spec fn pending_in<T: RTreeObject>(choice: Choice<T>, frames: Seq<Frame<T>>) -> Multiset<T>
    decreases frames.len(),
{
    if frames.len() == 0 {
        Multiset::empty()
    } else {
        pending_in(choice, frames.drop_last()).add(pending(choice, frames.last()))
    }
}

proof fn lemma_pending_closed<T: RTreeObject>(choice: Choice<T>, frames: Seq<Frame<T>>)
    requires
        frames.len() > 0,
        in_place(frames),
        all_open(choice, frames),
        pending(choice, frames.last()) == Multiset::<T>::empty(),
    ensures
        match closed(frames, true) {
            Step::Move(then) => {
                &&& all_open(choice, then)
                &&& pending_in(choice, then) == pending_in(choice, frames)
            },
            Step::Yield(_, _) => false,
            Step::Finish(_, _) => pending_in(choice, frames) == Multiset::<T>::empty(),
        },
{
    let top = frames.last();
    let node = top.node.settled(top.removed);
    let rest = frames.drop_last();
    if frames.len() == 1 {
        assert(pending_in(choice, rest) == Multiset::<T>::empty());
    } else {
        let above = rest.last();
        let children = above.node.children;
        let i = above.next;
        let after = placed(children, i, Node::Parent(node));
        if i < children.len() {
            assert(after.skip(i + 1).drop_last() =~= children.skip(i + 1));
            choice.lemma_skip(children, i);
        }
        if let Step::Move(then) = closed(frames, true) {
            lemma_with_top(rest, then.last());
            assert(pending_in(choice, rest) == pending_in(choice, rest.drop_last()).add(
                pending(choice, above),
            ));
        }
    }
}

proof fn lemma_pending_step<T: RTreeObject, R: SelectionFunction<T>>(
    choice: Choice<T>,
    function: R,
    frames: Seq<Frame<T>>,
    step: Step<T>,
)
    requires
        selects_by(function, choice),
        frames.len() > 0,
        in_place(frames),
        all_open(choice, frames),
        steps(function, frames, step),
    ensures
        match step {
            Step::Move(then) => {
                &&& all_open(choice, then)
                &&& pending_in(choice, then) == pending_in(choice, frames)
            },
            Step::Yield(object, then) => {
                &&& (choice.objects)(object)
                &&& all_open(choice, then)
                &&& pending_in(choice, frames) == pending_in(choice, then).insert(object)
            },
            Step::Finish(_, _) => pending_in(choice, frames) == Multiset::<T>::empty(),
        },
{
    let top = frames.last();
    let children = top.node.children;
    let i = top.next;
    if opens(function, top, true) && i < children.len() && takes(function, frames, step) {
        choice.lemma_skip(children, i);
        assert(swap_removed(children, i).skip(i) =~= swap_removed(children.skip(i), 0));
        choice.lemma_swap_remove(children.skip(i), 0);
        let without = Frame { node: top.node.without_child(i), ..top };
        match children[i] {
            Node::Parent(child) => {
                let shorter = with_top(frames, without);
                let new = Frame { node: child, next: 0, removed: 0 };
                let then = shorter.push(new);
                lemma_with_top(frames, without);
                assert(then.drop_last() =~= shorter);
                assert(child.children.skip(0) =~= child.children);
                let below = frames.drop_last();
                assert(pending_in(choice, shorter) == pending_in(choice, below).add(
                    pending(choice, without),
                ));
            },
            Node::Leaf(leaf) => {
                let taken = Frame { removed: top.removed + 1, ..without };
                let passed = Frame { next: i + 1, ..top };
                lemma_with_top(frames, taken);
                lemma_with_top(frames, passed);
            },
        }
    } else {
        lemma_pending_closed(choice, frames);
    }
}

proof fn lemma_pending_passes<T: RTreeObject, R: SelectionFunction<T>>(
    choice: Choice<T>,
    function: R,
    frames: Seq<Frame<T>>,
    path: Seq<Seq<Frame<T>>>,
    end: Step<T>,
)
    requires
        selects_by(function, choice),
        frames.len() > 0,
        in_place(frames),
        all_open(choice, frames),
        passes(function, frames, path, end),
    ensures
        match end {
            Step::Move(_) => false,
            Step::Yield(object, then) => {
                &&& (choice.objects)(object)
                &&& all_open(choice, then)
                &&& pending_in(choice, frames) == pending_in(choice, then).insert(object)
            },
            Step::Finish(_, _) => pending_in(choice, frames) == Multiset::<T>::empty(),
        },
    decreases path.len(),
{
    if path.len() == 0 {
        lemma_pending_step(choice, function, frames, end);
    } else {
        lemma_step(function, frames, Step::Move(path[0]));
        lemma_pending_step(choice, function, frames, Step::Move(path[0]));
        lemma_pending_passes(choice, function, path[0], path.drop_first(), end);
    }
}

proof fn lemma_pending_yields<T: RTreeObject, R: SelectionFunction<T>>(
    choice: Choice<T>,
    function: R,
    frames: Seq<Frame<T>>,
    objects: Seq<T>,
    then: Seq<Frame<T>>,
)
    requires
        selects_by(function, choice),
        frames.len() > 0,
        in_place(frames),
        all_open(choice, frames),
        yields(function, frames, objects, then),
    ensures
        all_open(choice, then),
        pending_in(choice, frames) == pending_in(choice, then).add(objects.to_multiset()),
    decreases objects.len(),
{
    broadcast use vstd::seq_lib::group_to_multiset_ensures;

    if objects.len() > 0 {
        let next = choose|next: Seq<Frame<T>>| #[trigger]
            advances(function, frames, Step::Yield(objects[0], next)) && yields(
                function,
                next,
                objects.drop_first(),
                then,
            );
        let end = Step::Yield(objects[0], next);
        let path = choose|path: Seq<Seq<Frame<T>>>| #[trigger] passes(function, frames, path, end);
        lemma_passes(function, frames, path, end);
        lemma_pending_passes(choice, function, frames, path, end);
        lemma_pending_yields(choice, function, next, objects.drop_first(), then);
        lemma_first(objects);
    }
}

proof fn lemma_pending_start<T: RTreeObject>(choice: Choice<T>, root: Branch<T>)
    ensures
        all_open(choice, start(root)),
        pending_in(choice, start(root)) == choice.among(Node::Parent(root)),
{
    assert(start(root).drop_last() =~= Seq::empty());
    assert(pending_in(choice, Seq::<Frame<T>>::empty()) == Multiset::<T>::empty());
    assert(root.children.skip(0) =~= root.children);
}

/// A drain yields nothing but selected objects, each as often as the tree holds it.
pub proof fn law_drain_yields_only_selected<T: RTreeObject, R: SelectionFunction<T>>(
    choice: Choice<T>,
    function: R,
    root: Branch<T>,
    objects: Seq<T>,
    then: Seq<Frame<T>>,
)
    requires
        selects_by(function, choice),
        yields(function, start(root), objects, then),
    ensures
        objects.to_multiset().subset_of(choice.among(Node::Parent(root))),
{
    lemma_start(root);
    lemma_pending_start(choice, root);
    lemma_pending_yields(choice, function, start(root), objects, then);
}

/// A drain to the end yields exactly the selected objects.
pub proof fn law_drain_yields_all_selected<T: RTreeObject, R: SelectionFunction<T>>(
    choice: Choice<T>,
    function: R,
    root: Branch<T>,
    objects: Seq<T>,
    then: Seq<Frame<T>>,
    after: Branch<T>,
    removed: nat,
)
    requires
        selects_by(function, choice),
        yields(function, start(root), objects, then),
        advances(function, then, Step::Finish(after, removed)),
    ensures
        objects.to_multiset() == choice.among(Node::Parent(root)),
{
    lemma_start(root);
    lemma_yields(function, start(root), objects, then);
    lemma_pending_start(choice, root);
    lemma_pending_yields(choice, function, start(root), objects, then);
    let end = Step::Finish(after, removed);
    let path = choose|path: Seq<Seq<Frame<T>>>| #[trigger] passes(function, then, path, end);
    lemma_pending_passes(choice, function, then, path, end);
}

/// Whether nothing was removed and no subtree is empty, but for the children that are being
/// drained in turn.
spec fn is_quiet<T: RTreeObject>(frames: Seq<Frame<T>>) -> bool {
    &&& forall|i: int|
        0 <= i < frames.len() ==> (#[trigger] frames[i]).removed == 0 && all_full(
            frames[i].node.children,
        )
    &&& frames.len() > 1 ==> frames.last().node.children.len() > 0
}

proof fn lemma_quiet_closed<T: RTreeObject>(frames: Seq<Frame<T>>)
    requires
        frames.len() > 0,
        in_place(frames),
        is_quiet(frames),
    ensures
        match closed(frames, true) {
            Step::Move(then) => is_quiet(then) && restored(then) == restored(frames),
            Step::Yield(_, _) => false,
            Step::Finish(root, _) => root == restored(frames),
        },
{
    if frames.len() > 1 {
        let node = frames.last().node;
        let rest = frames.drop_last();
        let above = rest.last();
        let children = placed(above.node.children, above.next, Node::Parent(node));
        let back = Frame { node: Branch { children, envelope: above.node.envelope }, ..above };
        if let Step::Move(then) = closed(frames, true) {
            lemma_with_top(rest, then.last());
            lemma_with_top(rest, back);
            assert(restored(with_top(rest, back)) == restored(then));
        }
    }
}

proof fn lemma_quiet_passes<T: RTreeObject, R: SelectionFunction<T>>(
    function: R,
    frames: Seq<Frame<T>>,
    path: Seq<Seq<Frame<T>>>,
    after: Branch<T>,
    removed: nat,
)
    requires
        frames.len() > 0,
        in_place(frames),
        is_quiet(frames),
        passes(function, frames, path, Step::Finish(after, removed)),
    ensures
        after == restored(frames),
    decreases path.len(),
{
    lemma_quiet_closed(frames);
    if path.len() > 0 {
        let then = path[0];
        let top = frames.last();
        let children = top.node.children;
        let i = top.next;
        let step = Step::Move(then);
        lemma_step(function, frames, step);
        if opens(function, top, true) && i < children.len() && takes(function, frames, step) {
            let without = Frame { node: top.node.without_child(i), ..top };
            match children[i] {
                Node::Parent(child) => {
                    let shorter = with_top(frames, without);
                    lemma_with_top(frames, without);
                    assert(then.drop_last() =~= shorter);
                    assert(placed(without.node.children, i, children[i]) =~= children);
                    assert(with_top(shorter, top) =~= frames);
                },
                Node::Leaf(_) => {
                    let passed = Frame { next: i + 1, ..top };
                    lemma_with_top(frames, passed);
                },
            }
        }
        lemma_quiet_passes(function, then, path.drop_first(), after, removed);
    }
}

/// A drain that finds nothing to remove leaves the tree as it was, if no subtree is empty.
pub proof fn law_drain_of_nothing_changes_nothing<T: RTreeObject, R: SelectionFunction<T>>(
    function: R,
    root: Branch<T>,
    after: Branch<T>,
    removed: nat,
)
    requires
        all_full(root.children),
        advances(function, start(root), Step::Finish(after, removed)),
    ensures
        after == root,
        removed == 0,
{
    lemma_start(root);
    law_next_removes_only_what_it_yields(function, start(root), Step::Finish(after, removed));
    let path = choose|path: Seq<Seq<Frame<T>>>| #[trigger]
        passes(function, start(root), path, Step::Finish(after, removed));
    lemma_quiet_passes(function, start(root), path, after, removed);
}

/// A removal of one selected object finds one if there is any. It removes that object and no
/// other, or nothing if it finds none.
pub proof fn law_remove_finds_one_if_there_is_any<T: RTreeObject, R: SelectionFunction<T>>(
    choice: Choice<T>,
    function: R,
    root: Branch<T>,
    end: Step<T>,
)
    requires
        selects_by(function, choice),
        advances(function, start(root), end),
    ensures
        match end {
            Step::Move(_) => false,
            Step::Yield(object, then) => {
                &&& choice.among(Node::Parent(root)).count(object) > 0
                &&& collapsed(then).0.leaves().insert(object) == root.leaves()
                &&& collapsed(then).1 == 1
            },
            Step::Finish(after, removed) => {
                &&& choice.among(Node::Parent(root)) == Multiset::<T>::empty()
                &&& after.leaves() == root.leaves()
                &&& removed == 0
            },
        },
{
    lemma_start(root);
    lemma_pending_start(choice, root);
    law_next_removes_only_what_it_yields(function, start(root), end);
    let path = choose|path: Seq<Seq<Frame<T>>>| #[trigger]
        passes(function, start(root), path, end);
    lemma_pending_passes(choice, function, start(root), path, end);
    if let Step::Yield(object, then) = end {
        lemma_collapsed(then);
    }
}

} // verus!
