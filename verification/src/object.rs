//! What the tree needs to know of the objects it stores.

use vstd::prelude::*;

verus! {

/// A bounding volume.
pub trait Envelope: Sized {
    /// The envelope that contains nothing.
    spec fn nothing() -> Self;

    /// The smallest envelope around `self` and `other`.
    spec fn join(self, other: Self) -> Self;

    /// Whether `self` and `other` have a point in common.
    spec fn meets(self, other: Self) -> bool;

    /// Creates an envelope that contains nothing.
    fn new_empty() -> (envelope: Self)
        ensures
            envelope == Self::nothing(),
    ;

    /// Extends this envelope to contain `other`.
    fn merge(&mut self, other: &Self)
        ensures
            *final(self) == old(self).join(*other),
    ;

    /// Returns `true` if this envelope and `other` have a point in common.
    fn intersects(&self, other: &Self) -> (meets: bool)
        ensures
            meets == self.meets(*other),
    ;
}

/// Whether the envelope of a set of objects is the same whichever order they are merged in.
pub open spec fn joins_in_any_order<E: Envelope>() -> bool {
    forall|a: E, b: E, c: E| #[trigger] a.join(b).join(c) == a.join(c).join(b)
}

/// Whether it makes no difference to an envelope to be merged with the one that contains nothing.
pub open spec fn ignores_nothing<E: Envelope>() -> bool {
    forall|a: E| #[trigger] a.join(E::nothing()) == a
}

/// Whether the envelope of a set of objects is the same whichever order they are merged in and
/// however often the envelope that contains nothing is merged in.
pub open spec fn merges_freely<E: Envelope>() -> bool {
    joins_in_any_order::<E>() && ignores_nothing::<E>()
}

/// Whether an envelope that meets another meets whatever that one is merged into or with, and is
/// met by it.
pub open spec fn meets_more_when_merged<E: Envelope>() -> bool {
    &&& forall|a: E, b: E| #[trigger] a.meets(b) ==> b.meets(a)
    &&& forall|region: E, a: E, b: E|
        region.meets(a) || region.meets(b) ==> #[trigger] region.meets(a.join(b))
}

/// An object that can be stored in an R-tree.
pub trait RTreeObject: Sized {
    /// The envelope type of the object.
    type Envelope: Envelope;

    /// The object's envelope.
    spec fn bounds(self) -> Self::Envelope;

    /// Returns the object's envelope.
    fn envelope(&self) -> (envelope: Self::Envelope)
        ensures
            envelope == self.bounds(),
    ;
}

} // verus!
