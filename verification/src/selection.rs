//! Selection of objects.

use crate::object::{Envelope, RTreeObject};
use vstd::prelude::*;

verus! {

/// Selects the objects of a tree that an operation is about.
pub trait SelectionFunction<T: RTreeObject>: Sized {
    /// Returns `true` if a parent node with the given envelope should be unpacked, that is if
    /// there may be selected objects below it.
    fn should_unpack_parent(&self, envelope: &T::Envelope) -> bool;

    /// Returns `true` if an object is selected.
    ///
    /// The default returns `true`.
    fn should_unpack_leaf(&self, leaf: &T) -> (selected: bool)
        default_ensures
            selected,
    {
        true
    }
}

/// Selects the objects whose envelope has a point in common with a given one.
pub struct SelectInEnvelopeFuncIntersecting<T: RTreeObject> {
    envelope: T::Envelope,
}

impl<T: RTreeObject> SelectInEnvelopeFuncIntersecting<T> {
    /// The given envelope.
    pub closed spec fn region(self) -> T::Envelope {
        self.envelope
    }

    /// Selects the objects whose envelope has a point in common with `envelope`.
    pub fn new(envelope: T::Envelope) -> (function: Self)
        ensures
            function.region() == envelope,
    {
        SelectInEnvelopeFuncIntersecting { envelope }
    }
}

impl<T: RTreeObject> SelectionFunction<T> for SelectInEnvelopeFuncIntersecting<T> {
    fn should_unpack_parent(&self, envelope: &T::Envelope) -> (unpack: bool)
        ensures
            unpack == self.region().meets(*envelope),
    {
        self.envelope.intersects(envelope)
    }

    fn should_unpack_leaf(&self, leaf: &T) -> (selected: bool)
        ensures
            selected == leaf.bounds().meets(self.region()),
    {
        leaf.envelope().intersects(&self.envelope)
    }
}

} // verus!
