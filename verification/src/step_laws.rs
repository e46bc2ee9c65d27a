//! What each step of a drain does.

use crate::drain_steps::{closed, in_place, steps, Frame, Step};
use crate::model::{Branch, Node};
use crate::object::RTreeObject;
use crate::return_laws::{is_put_in_order, is_without};
use crate::selection::SelectionFunction;
use vstd::prelude::*;

verus! {

/// Whether `then` is `frames` but for the last one.
pub open spec fn is_same_below<T: RTreeObject>(
    then: Seq<Frame<T>>,
    frames: Seq<Frame<T>>,
    n: int,
) -> bool {
    forall|i: int| 0 <= i < n ==> #[trigger] then[i] == frames[i]
}

/// Whether the function opens the node, or one of its children was dealt with.
pub open spec fn may_open<T: RTreeObject, R: SelectionFunction<T>>(
    function: R,
    frame: Frame<T>,
) -> bool {
    frame.next > 0 || call_ensures(
        R::should_unpack_parent,
        (&function, &frame.node.envelope),
        true,
    )
}

/// Whether a drain is done with the node: all its children were dealt with, or the function does
/// not open it.
pub open spec fn may_close<T: RTreeObject, R: SelectionFunction<T>>(
    function: R,
    frame: Frame<T>,
) -> bool {
    ||| may_open(function, frame) && frame.next >= frame.node.children.len()
    ||| frame.next == 0 && call_ensures(
        R::should_unpack_parent,
        (&function, &frame.node.envelope),
        false,
    )
}

/// Whether `after` is the node above when a node that is left as `node` goes back into it: beside
/// the children that are there, not at all if it has none of its own.
pub open spec fn takes_back<T: RTreeObject>(
    after: Frame<T>,
    above: Frame<T>,
    node: Branch<T>,
    removed: nat,
    keep_place: bool,
) -> bool {
    let n = above.node.children.len();
    let children = after.node.children;
    &&& after.removed == above.removed + removed
    &&& after.node.envelope == above.node.envelope
    &&& node.children.len() == 0 ==> children == above.node.children && after.next == above.next
    &&& node.children.len() > 0 ==> {
        let place = if keep_place {
            above.next
        } else {
            n as int
        };
        &&& children.len() == n + 1
        &&& children[place] == Node::Parent(node)
        &&& forall|j: int|
            0 <= j < n && j != place ==> #[trigger] children[j] == above.node.children[j]
        &&& place < n ==> children[n as int] == above.node.children[place]
        &&& after.next == if keep_place {
            above.next + 1
        } else {
            above.next
        }
    }
}

/// What a node that is done with leads to. It is put in order, and goes back into the one above, or
/// is the root.
pub proof fn law_close_of_a_node<T: RTreeObject>(frames: Seq<Frame<T>>, keep_place: bool)
    requires
        frames.len() > 0,
        in_place(frames),
    ensures
        ({
            let top = frames[frames.len() - 1];
            match closed(frames, keep_place) {
                Step::Yield(_, _) => false,
                Step::Move(then) => {
                    let n = frames.len() - 2;
                    &&& n >= 0 && then.len() == n + 1
                    &&& is_same_below(then, frames, n)
                    &&& exists|node: Branch<T>| #[trigger]
                        is_put_in_order(node, top.node.envelope, top.removed) && node.children
                            == top.node.children && takes_back(
                            then[n],
                            frames[n],
                            node,
                            top.removed,
                            keep_place,
                        )
                },
                Step::Finish(root, removed) => {
                    &&& frames.len() == 1
                    &&& root.children == top.node.children && removed == top.removed
                    &&& is_put_in_order(root, top.node.envelope, top.removed)
                },
            }
        }),
{
    let top = frames[frames.len() - 1];
    let node = top.node.settled(top.removed);
    assert(is_put_in_order(node, top.node.envelope, top.removed));
}

/// What each step of a drain does. An object is yielded only if the function selects it, and its
/// place is taken by the last child. An object is passed over only if the function does not select
/// it. A subtree is taken out to be drained in turn. A node is closed only when all its children
/// were dealt with, or if the function does not open it.
pub proof fn law_step_of_a_drain<T: RTreeObject, R: SelectionFunction<T>>(
    function: R,
    frames: Seq<Frame<T>>,
    step: Step<T>,
)
    requires
        frames.len() > 0,
        in_place(frames),
        steps(function, frames, step),
    ensures
        ({
            let n = frames.len() - 1;
            let top = frames[n];
            let children = top.node.children;
            match step {
                Step::Yield(object, then) => {
                    &&& may_open(function, top) && top.next < children.len()
                    &&& children[top.next] == Node::Leaf(object)
                    &&& call_ensures(R::should_unpack_leaf, (&function, &object), true)
                    &&& then.len() == frames.len() && is_same_below(then, frames, n)
                    &&& is_without(then[n].node.children, children, top.next)
                    &&& then[n].node.envelope == top.node.envelope
                    &&& then[n].next == top.next && then[n].removed == top.removed + 1
                },
                Step::Move(then) => if then.len() == frames.len() {
                    &&& may_open(function, top) && top.next < children.len()
                    &&& children[top.next] matches Node::Leaf(leaf) && call_ensures(
                        R::should_unpack_leaf,
                        (&function, &leaf),
                        false,
                    )
                    &&& is_same_below(then, frames, n) && then[n].node == top.node
                    &&& then[n].next == top.next + 1 && then[n].removed == top.removed
                } else if then.len() > frames.len() {
                    &&& may_open(function, top) && top.next < children.len()
                    &&& then.len() == frames.len() + 1 && is_same_below(then, frames, n)
                    &&& children[top.next] == Node::Parent(then[n + 1].node)
                    &&& then[n + 1].next == 0 && then[n + 1].removed == 0
                    &&& is_without(then[n].node.children, children, top.next)
                    &&& then[n].node.envelope == top.node.envelope
                    &&& then[n].next == top.next && then[n].removed == top.removed
                } else {
                    may_close(function, top) && step == closed(frames, true)
                },
                Step::Finish(_, _) => may_close(function, top) && step == closed(frames, true),
            }
        }),
{
    law_close_of_a_node(frames, true);
}

} // verus!
