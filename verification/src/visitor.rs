//! Visitors that steer a removal.

use crate::object::RTreeObject;
use vstd::prelude::*;

verus! {

/// Traversal control returned after visiting a leaf.
#[derive(Clone, Copy, Debug, PartialEq, Eq, Structural)]
pub enum VisitLeafControl {
    /// Leave this leaf in the tree and continue traversal.
    Keep,
    /// Remove this leaf from the tree and continue traversal.
    Remove,
    /// Remove this leaf and backtrack.
    RemoveAndRevisit,
    /// Leave this leaf in the tree and stop traversal.
    Stop,
}

/// Visitor used by [`crate::drain_with_backtracking_visitor`].
pub trait BacktrackingDrainVisitor<T: RTreeObject>: Sized {
    /// Whether a visitor in state `before` may answer a visit of `leaf` with `control` and be in
    /// state `after` then.
    ///
    /// The default is that anything may happen.
    open spec fn visited(
        before: Self,
        leaf: T,
        control: VisitLeafControl,
        after: Self,
    ) -> bool {
        true
    }

    /// Returns `true` if traversal should descend into a parent node.
    ///
    /// This may be called more than once for the same parent, including after
    /// `VisitLeafControl::RemoveAndRevisit` asks traversal to backtrack.
    fn should_unpack_parent(&self, envelope: &T::Envelope) -> bool;

    /// Visits a leaf and decides what traversal should do with it.
    fn visit_leaf(&mut self, leaf: &T) -> (control: VisitLeafControl)
        ensures
            Self::visited(*old(self), *leaf, control, *final(self)),
    ;

    /// Returns `true` if an already-processed subtree child should be revisited after a leaf
    /// returned `VisitLeafControl::RemoveAndRevisit`.
    ///
    /// The default delegates to [`BacktrackingDrainVisitor::should_unpack_parent`].
    fn should_revisit_parent(&self, envelope: &T::Envelope) -> (revisit: bool)
        default_ensures
            call_ensures(Self::should_unpack_parent, (self, envelope), revisit),
    {
        self.should_unpack_parent(envelope)
    }

    /// Returns `true` if an already-processed leaf child should be revisited after a leaf returned
    /// [`VisitLeafControl::RemoveAndRevisit`].
    ///
    /// The default returns `true`.
    fn should_revisit_leaf(&self, leaf: &T) -> (revisit: bool)
        default_ensures
            revisit,
    {
        true
    }
}

} // verus!
