//! A selection function as a visitor.

use crate::agreement_laws::law_visitor_and_drain_agree;
use crate::drain_laws::{selects_by, yields};
use crate::drain_steps::{advances, start, Frame, Step};
use crate::model::{all_full, Branch, Choice, Node};
use crate::object::{joins_in_any_order, RTreeObject};
use crate::selection::SelectionFunction;
use crate::traversal::{drains, revisits};
use crate::visitor::{BacktrackingDrainVisitor, VisitLeafControl};
use crate::visitor_laws::{decides_by, is_kept};
use vstd::prelude::*;

verus! {

/// Visitor that removes the objects that a selection function selects.
pub struct RemoveSelected<R> {
    pub function: R,
}

impl<T: RTreeObject, R: SelectionFunction<T>> BacktrackingDrainVisitor<T> for RemoveSelected<R> {
    open spec fn visited(
        before: Self,
        leaf: T,
        control: VisitLeafControl,
        after: Self,
    ) -> bool {
        &&& after == before
        &&& match control {
            VisitLeafControl::Keep => call_ensures(
                R::should_unpack_leaf,
                (&before.function, &leaf),
                false,
            ),
            VisitLeafControl::Remove => call_ensures(
                R::should_unpack_leaf,
                (&before.function, &leaf),
                true,
            ),
            VisitLeafControl::RemoveAndRevisit => false,
            VisitLeafControl::Stop => false,
        }
    }

    fn should_unpack_parent(&self, envelope: &T::Envelope) -> (unpack: bool)
        ensures
            call_ensures(R::should_unpack_parent, (&self.function, envelope), unpack),
    {
        self.function.should_unpack_parent(envelope)
    }

    fn visit_leaf(&mut self, leaf: &T) -> (control: VisitLeafControl) {
        if self.function.should_unpack_leaf(leaf) {
            VisitLeafControl::Remove
        } else {
            VisitLeafControl::Keep
        }
    }
}

/// A visitor that does not say what it wants revisited wants a subtree revisited if and only if it
/// unpacks it, and each leaf.
pub proof fn law_what_is_unpacked_is_revisited<T: RTreeObject, R: SelectionFunction<T>>(
    visitor: RemoveSelected<R>,
    node: Node<T>,
    answer: bool,
)
    requires
        revisits::<T, RemoveSelected<R>>(visitor, node, answer),
    ensures
        match node {
            Node::Leaf(_) => answer,
            Node::Parent(branch) => call_ensures(
                <RemoveSelected<R> as BacktrackingDrainVisitor<T>>::should_unpack_parent,
                (&visitor, &branch.envelope),
                answer,
            ),
        },
{
}

/// A visitor that removes what a function selects decides by what the function selects by.
pub proof fn law_decides_by_what_is_selected<T: RTreeObject, R: SelectionFunction<T>>(
    function: R,
    choice: Choice<T>,
)
    requires
        selects_by(function, choice),
    ensures
        is_kept::<T, RemoveSelected<R>>(|visitor: RemoveSelected<R>| visitor.function == function),
        decides_by(|visitor: RemoveSelected<R>| visitor.function == function, choice),
{
}

/// A removal by a visitor that removes what a function selects and a drain to the end by that
/// function take out equally many objects and leave the same. The root has the same envelope, if no
/// subtree was empty and the order in which envelopes are merged makes no difference.
pub proof fn law_removal_of_selected_is_a_drain<T: RTreeObject, R: SelectionFunction<T>>(
    choice: Choice<T>,
    root: Branch<T>,
    visitor: RemoveSelected<R>,
    removed: nat,
    after: Branch<T>,
    left: RemoveSelected<R>,
    objects: Seq<T>,
    then: Seq<Frame<T>>,
    other: Branch<T>,
    count: nat,
)
    requires
        selects_by(visitor.function, choice),
        drains(root, visitor, removed, after, left),
        yields(visitor.function, start(root), objects, then),
        advances(visitor.function, then, Step::Finish(other, count)),
    ensures
        removed == objects.len(),
        removed == count,
        after.leaves() == other.leaves(),
        joins_in_any_order::<T::Envelope>() && all_full(root.children) ==> after.envelope
            == other.envelope,
{
    let function = visitor.function;
    law_decides_by_what_is_selected(function, choice);
    law_visitor_and_drain_agree(
        |v: RemoveSelected<R>| v.function == function,
        choice,
        root,
        visitor,
        removed,
        after,
        left,
        function,
        objects,
        then,
        other,
        count,
    );
}

} // verus!
