//! Removal of objects from an R-tree.
//!
//! - [`DrainIterator`] removes the objects that a [`SelectionFunction`] selects, one at a time.
//! - [`drain_with_backtracking_visitor`] removes the objects that a [`BacktrackingDrainVisitor`]
//!   chooses, in one traversal that the visitor can send back.
//! - [`IntoIter`] takes a whole tree apart.

pub mod aabb;
pub mod agreement_laws;
pub mod backtracking;
pub mod box_laws;
pub mod drain;
pub mod drain_laws;
pub mod drain_steps;
pub mod drain_tidy_laws;
pub mod into_iter;
pub mod model;
pub mod node;
pub mod object;
pub mod once_laws;
pub mod order_laws;
pub mod params;
pub mod repeat_laws;
pub mod return_laws;
pub mod rtree;
pub mod selection;
pub mod selection_laws;
pub mod selection_visitor;
pub mod shape;
pub mod shape_laws;
pub mod step_laws;
pub mod traversal;
pub mod visit_laws;
pub mod visitor;
pub mod visitor_laws;

pub use crate::aabb::AABB;
pub use crate::backtracking::drain_with_backtracking_visitor;
pub use crate::drain::DrainIterator;
pub use crate::into_iter::IntoIter;
pub use crate::node::{ParentNode, RTreeNode};
pub use crate::object::{Envelope, RTreeObject};
pub use crate::params::{DefaultParams, RTreeParams};
pub use crate::rtree::RTree;
pub use crate::selection::{SelectInEnvelopeFuncIntersecting, SelectionFunction};
pub use crate::selection_visitor::RemoveSelected;
pub use crate::visitor::{BacktrackingDrainVisitor, VisitLeafControl};
