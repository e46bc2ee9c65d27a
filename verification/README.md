# rstar: removal

Removal of objects from an R-tree, verified with Verus.

An R-tree keeps objects in nested nodes, each with the envelope around what is below it. This
library takes objects out again:

- `DrainIterator` removes the objects that a `SelectionFunction` selects, one at a time.
- `drain_with_backtracking_visitor` removes the objects that a `BacktrackingDrainVisitor` chooses,
  in one traversal that the visitor can send back or stop.
- `IntoIter` takes a whole tree apart.

A tree is put together from nodes with `ParentNode::new_parent` and `RTree::from_root`.

## Layout

- `src/object.rs`, `aabb.rs`: envelopes and objects, and boxes of integer points.
- `src/node.rs`, `rtree.rs`, `params.rs`: the tree.
- `src/model.rs`: the tree as a mathematical value, on which all contracts are stated.
- `src/visitor.rs`, `traversal.rs`, `backtracking.rs`: visitors, what their traversal does step by
  step, and the code that does it.
- `src/selection.rs`, `drain_steps.rs`, `drain.rs`: selections, what a drain does step by step, and
  the iterator that does it.
- `src/into_iter.rs`: whole trees.
- `src/visitor_laws.rs`, `visit_laws.rs`, `once_laws.rs`, `drain_laws.rs`, `selection_laws.rs`: what
  follows for every removal: what it takes out, what it leaves, what it visits and what it reaches.
- `src/drain_tidy_laws.rs`, `shape.rs`, `shape_laws.rs`: envelopes, depths and siblings after a
  removal.
- `src/repeat_laws.rs`, `agreement_laws.rs`, `selection_visitor.rs`: a second removal, a drain that is
  taken up again, and a visitor and a drain that choose the same.
- `app/`: standard iterators around the library, with the tree put back when a drain is dropped.

What a visitor or a selection function answers is not assumed. The contracts say which answers
lead to which tree.
