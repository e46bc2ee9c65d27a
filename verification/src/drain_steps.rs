//! What a drain of a tree does, step by step.

use crate::model::{
    leaves_of, lemma_leaves_swap_remove, lemma_leaves_update, lemma_weight_skip,
    lemma_weight_swap_remove, swap_removed, weight_of, Branch, Node,
};
use crate::object::RTreeObject;
use crate::selection::SelectionFunction;
use vstd::multiset::Multiset;
use vstd::prelude::*;

verus! {

/// A node that is being drained.
#[verifier::ext_equal]
pub struct Frame<T: RTreeObject> {
    /// The node, without the child that is being drained in turn.
    pub node: Branch<T>,
    /// The number of leading children that were dealt with.
    pub next: int,
    /// The number of objects removed below the node.
    pub removed: nat,
}

/// What one step of a drain leads to.
#[verifier::ext_equal]
pub enum Step<T: RTreeObject> {
    /// The drain goes on with the given nodes.
    Move(Seq<Frame<T>>),
    /// An object is removed.
    Yield(T, Seq<Frame<T>>),
    /// The drain is over: the root, and the number of objects removed.
    Finish(Branch<T>, nat),
}

/// The beginning of a drain.
pub open spec fn start<T: RTreeObject>(root: Branch<T>) -> Seq<Frame<T>> {
    seq![Frame { node: root, next: 0, removed: 0 }]
}

/// `frames` with the last one replaced.
pub open spec fn with_top<T: RTreeObject>(frames: Seq<Frame<T>>, top: Frame<T>) -> Seq<Frame<T>> {
    frames.update(frames.len() - 1, top)
}

/// The last node is done with. It goes back to the node above, unless it has become empty; if
/// there is none above, it is the root. With `keep_place` it becomes the last child of the node
/// above that was dealt with, otherwise the last child.
pub open spec fn closed<T: RTreeObject>(frames: Seq<Frame<T>>, keep_place: bool) -> Step<T> {
    let top = frames.last();
    let node = top.node.settled(top.removed);
    if frames.len() == 1 {
        Step::Finish(node, top.removed)
    } else {
        let rest = frames.drop_last();
        let above = rest.last();
        let children = above.node.children;
        let removed = above.removed + top.removed;
        Step::Move(
            with_top(
                rest,
                if node.children.len() == 0 {
                    Frame { removed, ..above }
                } else if keep_place {
                    Frame {
                        node: Branch {
                            children: placed(children, above.next, Node::Parent(node)),
                            envelope: above.node.envelope,
                        },
                        next: above.next + 1,
                        removed,
                    }
                } else {
                    Frame {
                        node: Branch {
                            children: children.push(Node::Parent(node)),
                            envelope: above.node.envelope,
                        },
                        next: above.next,
                        removed,
                    }
                },
            ),
        )
    }
}

/// `items` with `item` at `i`, and the one that was there at the end.
pub open spec fn placed<A>(items: Seq<A>, i: int, item: A) -> Seq<A> {
    if i < items.len() {
        items.update(i, item).push(items[i])
    } else {
        items.push(item)
    }
}

/// Whether `function` may answer `answer` to whether the children of a node should be looked at.
/// It is asked until one of them was dealt with.
pub open spec fn opens<T: RTreeObject, R: SelectionFunction<T>>(
    function: R,
    frame: Frame<T>,
    answer: bool,
) -> bool {
    if frame.next > 0 {
        answer
    } else {
        call_ensures(R::should_unpack_parent, (&function, &frame.node.envelope), answer)
    }
}

/// Whether the child of the last node that is next may lead to `step`: a subtree is drained in
/// turn, an object is removed or passed over.
pub open spec fn takes<T: RTreeObject, R: SelectionFunction<T>>(
    function: R,
    frames: Seq<Frame<T>>,
    step: Step<T>,
) -> bool {
    let top = frames.last();
    let without = Frame { node: top.node.without_child(top.next), ..top };
    match top.node.children[top.next] {
        Node::Parent(child) => step == Step::Move(
            with_top(frames, without).push(Frame { node: child, next: 0, removed: 0 }),
        ),
        Node::Leaf(leaf) => {
            ||| {
                &&& call_ensures(R::should_unpack_leaf, (&function, &leaf), true)
                &&& step == Step::Yield(
                    leaf,
                    with_top(frames, Frame { removed: top.removed + 1, ..without }),
                )
            }
            ||| {
                &&& call_ensures(R::should_unpack_leaf, (&function, &leaf), false)
                &&& step == Step::<T>::Move(with_top(frames, Frame { next: top.next + 1, ..top }))
            }
        },
    }
}

/// Whether a drain of `frames` may go on with `step`.
pub open spec fn steps<T: RTreeObject, R: SelectionFunction<T>>(
    function: R,
    frames: Seq<Frame<T>>,
    step: Step<T>,
) -> bool {
    let top = frames.last();
    ||| {
        &&& opens(function, top, true)
        &&& top.next < top.node.children.len()
        &&& takes(function, frames, step)
    }
    ||| {
        &&& opens(function, top, true)
        &&& top.next >= top.node.children.len()
        &&& step == closed(frames, true)
    }
    ||| {
        &&& opens(function, top, false)
        &&& step == closed(frames, true)
    }
}

/// Whether a drain may come from `frames` over the ones on `path` to `end`.
pub open spec fn passes<T: RTreeObject, R: SelectionFunction<T>>(
    function: R,
    frames: Seq<Frame<T>>,
    path: Seq<Seq<Frame<T>>>,
    end: Step<T>,
) -> bool
    decreases path.len(),
{
    if path.len() == 0 {
        !(end is Move) && steps(function, frames, end)
    } else {
        &&& steps(function, frames, Step::Move(path[0]))
        &&& passes(function, path[0], path.drop_first(), end)
    }
}

/// Whether `end` may be the next object that a drain of `frames` removes, or its end.
pub open spec fn advances<T: RTreeObject, R: SelectionFunction<T>>(
    function: R,
    frames: Seq<Frame<T>>,
    end: Step<T>,
) -> bool {
    exists|path: Seq<Seq<Frame<T>>>| #[trigger] passes(function, frames, path, end)
}

/// The tree that is put together from `frames`: its root, and the number of objects removed.
pub open spec fn collapsed<T: RTreeObject>(frames: Seq<Frame<T>>) -> (Branch<T>, nat)
    decreases frames.len(),
{
    match closed(frames, false) {
        Step::Finish(root, removed) => (root, removed),
        Step::Move(rest) if 0 < rest.len() < frames.len() => collapsed(rest),
        _ => arbitrary(),
    }
}

/// The root when each node is put back where it was.
pub open spec fn restored<T: RTreeObject>(frames: Seq<Frame<T>>) -> Branch<T>
    decreases frames.len(),
{
    let node = frames.last().node;
    if frames.len() <= 1 {
        node
    } else {
        let rest = frames.drop_last();
        restored(with_top(rest, holding(rest.last(), Node::Parent(node))))
    }
}

/// The node with `child`, which was being drained in turn, put back where it was.
pub open spec fn holding<T: RTreeObject>(frame: Frame<T>, child: Node<T>) -> Frame<T> {
    Frame {
        node: Branch {
            children: placed(frame.node.children, frame.next, child),
            envelope: frame.node.envelope,
        },
        ..frame
    }
}

/// The objects below any of the nodes.
pub open spec fn leaves_in<T: RTreeObject>(frames: Seq<Frame<T>>) -> Multiset<T>
    decreases frames.len(),
{
    if frames.len() == 0 {
        Multiset::empty()
    } else {
        leaves_in(frames.drop_last()).add(frames.last().node.leaves())
    }
}

/// The number of objects removed below any of the nodes.
pub open spec fn removed_in<T: RTreeObject>(frames: Seq<Frame<T>>) -> nat
    decreases frames.len(),
{
    if frames.len() == 0 {
        0
    } else {
        removed_in(frames.drop_last()) + frames.last().removed
    }
}

/// A measure of the work that is left.
pub open spec fn work_in<T: RTreeObject>(frames: Seq<Frame<T>>) -> nat
    decreases frames.len(),
{
    if frames.len() == 0 {
        0
    } else {
        work_in(frames.drop_last()) + 1 + weight_of(
            frames.last().node.children.skip(frames.last().next),
        )
    }
}

/// Whether each node has at least as many children as were dealt with.
pub open spec fn in_place<T: RTreeObject>(frames: Seq<Frame<T>>) -> bool {
    forall|i: int|
        0 <= i < frames.len() ==> 0 <= (#[trigger] frames[i]).next <= frames[i].node.children.len()
}

pub proof fn lemma_start<T: RTreeObject>(root: Branch<T>)
    ensures
        in_place(start(root)),
        leaves_in(start(root)) == root.leaves(),
        removed_in(start(root)) == 0,
{
    assert(start(root).drop_last() =~= Seq::empty());
    assert(leaves_in(Seq::<Frame<T>>::empty()) == Multiset::<T>::empty());
    assert(removed_in(Seq::<Frame<T>>::empty()) == 0);
}

/// What `placed` and `push` do to the objects below the node above.
pub proof fn lemma_put_back<T: RTreeObject>(children: Seq<Node<T>>, i: int, node: Node<T>)
    requires
        0 <= i <= children.len(),
    ensures
        leaves_of(children.push(node)) == leaves_of(children).add(node.leaves()),
        leaves_of(placed(children, i, node)) == leaves_of(children).add(node.leaves()),
        placed(children, i, node).len() == children.len() + 1,
        weight_of(placed(children, i, node).skip(i + 1)) == weight_of(children.skip(i)),
{
    let after = placed(children, i, node);
    assert(children.push(node).drop_last() =~= children);
    if i < children.len() {
        lemma_leaves_update(children, i, node);
        assert(after.drop_last() =~= children.update(i, node));
        assert(after.skip(i + 1).drop_last() =~= children.skip(i + 1));
        lemma_weight_skip(children, i);
    }
}

pub proof fn lemma_with_top<T: RTreeObject>(frames: Seq<Frame<T>>, top: Frame<T>)
    requires
        frames.len() > 0,
    ensures
        with_top(frames, top).len() == frames.len(),
        with_top(frames, top).last() == top,
        with_top(frames, top).drop_last() == frames.drop_last(),
{
}

pub proof fn lemma_closed<T: RTreeObject>(frames: Seq<Frame<T>>, keep_place: bool)
    requires
        frames.len() > 0,
        in_place(frames),
    ensures
        match closed(frames, keep_place) {
            Step::Move(then) => {
                &&& then.len() == frames.len() - 1
                &&& then.len() > 0
                &&& in_place(then)
                &&& leaves_in(then) == leaves_in(frames)
                &&& removed_in(then) == removed_in(frames)
                &&& keep_place ==> work_in(then) < work_in(frames)
            },
            Step::Yield(_, _) => false,
            Step::Finish(root, removed) => {
                &&& frames.len() == 1
                &&& root.leaves() == leaves_in(frames)
                &&& removed == removed_in(frames)
            },
        },
{
    let top = frames.last();
    let node = top.node.settled(top.removed);
    let rest = frames.drop_last();
    if frames.len() == 1 {
        assert(leaves_in(rest) == Multiset::<T>::empty());
        assert(removed_in(rest) == 0);
    } else {
        let above = rest.last();
        lemma_put_back(above.node.children, above.next, Node::Parent(node));
        if let Step::Move(then) = closed(frames, keep_place) {
            lemma_with_top(rest, then.last());
            let below = rest.drop_last();
            assert(leaves_in(rest) == leaves_in(below).add(above.node.leaves()));
            assert(removed_in(rest) == removed_in(below) + above.removed);
            assert(work_in(rest) == work_in(below) + 1 + weight_of(
                above.node.children.skip(above.next),
            ));
        }
    }
}

pub proof fn lemma_step<T: RTreeObject, R: SelectionFunction<T>>(
    function: R,
    frames: Seq<Frame<T>>,
    step: Step<T>,
)
    requires
        frames.len() > 0,
        in_place(frames),
        steps(function, frames, step),
    ensures
        match step {
            Step::Move(then) => {
                &&& then.len() > 0
                &&& in_place(then)
                &&& leaves_in(then) == leaves_in(frames)
                &&& removed_in(then) == removed_in(frames)
                &&& work_in(then) < work_in(frames)
            },
            Step::Yield(object, then) => {
                &&& then.len() > 0
                &&& in_place(then)
                &&& leaves_in(frames) == leaves_in(then).insert(object)
                &&& removed_in(then) == removed_in(frames) + 1
            },
            Step::Finish(root, removed) => {
                &&& root.leaves() == leaves_in(frames)
                &&& removed == removed_in(frames)
            },
        },
{
    lemma_closed(frames, true);
    let top = frames.last();
    let children = top.node.children;
    let i = top.next;
    if opens(function, top, true) && i < children.len() && takes(function, frames, step) {
        lemma_leaves_swap_remove(children, i);
        lemma_weight_skip(children, i);
        assert(swap_removed(children, i).skip(i) =~= swap_removed(children.skip(i), 0));
        lemma_weight_swap_remove(children.skip(i), 0);
        let without = Frame { node: top.node.without_child(i), ..top };
        match children[i] {
            Node::Parent(child) => {
                let shorter = with_top(frames, without);
                let new = Frame { node: child, next: 0, removed: 0 };
                let then = shorter.push(new);
                lemma_with_top(frames, without);
                assert(then.drop_last() =~= shorter);
                assert(child.children.skip(0) =~= child.children);
                let below = frames.drop_last();
                assert(leaves_in(shorter) == leaves_in(below).add(without.node.leaves()));
                assert(removed_in(shorter) == removed_in(below) + top.removed);
                assert(work_in(shorter) == work_in(below) + 1 + weight_of(
                    without.node.children.skip(i),
                ));
            },
            Node::Leaf(leaf) => {
                let taken = Frame { removed: top.removed + 1, ..without };
                let passed = Frame { next: i + 1, ..top };
                lemma_with_top(frames, taken);
                lemma_with_top(frames, passed);
            },
        }
    }
}

pub proof fn lemma_advances<T: RTreeObject, R: SelectionFunction<T>>(
    function: R,
    frames: Seq<Frame<T>>,
    step: Step<T>,
)
    requires
        steps(function, frames, step),
    ensures
        match step {
            Step::Move(then) => forall|end: Step<T>| #[trigger]
                advances(function, then, end) ==> advances(function, frames, end),
            _ => advances(function, frames, step),
        },
{
    match step {
        Step::Move(then) => {
            assert forall|end: Step<T>| #[trigger] advances(function, then, end) implies advances(
                function,
                frames,
                end,
            ) by {
                let rest = choose|path: Seq<Seq<Frame<T>>>| #[trigger]
                    passes(function, then, path, end);
                let path = seq![then] + rest;
                assert(path.drop_first() =~= rest);
                assert(passes(function, frames, path, end));
            }
        },
        _ => {
            assert(passes(function, frames, Seq::empty(), step));
        },
    }
}

} // verus!
