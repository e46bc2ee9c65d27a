//! Removal steered by a visitor that may ask to go back.

use crate::model::{lemma_weight_swap_remove, swap_removed, weight_of, Branch, Node};
use crate::node::{envelope_for_children, group_models, ParentNode, RTreeNode};
use crate::object::RTreeObject;
use crate::params::RTreeParams;
use crate::return_laws::may_answer;
use crate::rtree::RTree;
use crate::traversal::{
    drains, first_revisited, is_rest_of, leads_to, lemma_descend, lemma_move, lemma_traverses,
    lemma_visit, lemma_visit_leaf, lemma_with_child, lemma_without_child, revisits, traverses, Move,
    Walk, Walked,
};
use crate::visitor::{BacktrackingDrainVisitor, VisitLeafControl};
use vstd::prelude::*;

verus! {

/// Returns the position of the first of the leading `processed_end` children of `node` that the
/// visitor wants revisited.
pub fn first_revisitable_child_index<T, V>(
    visitor: &V,
    node: &ParentNode<T>,
    processed_end: usize,
) -> (found: Option<usize>) where T: RTreeObject, V: BacktrackingDrainVisitor<T>
    ensures
        first_revisited(
            *visitor,
            node@.children,
            processed_end as int,
            match found {
                Some(i) => Some(i as int),
                None => None,
            },
        ),
        match found {
            Some(i) => {
                &&& i < processed_end && i < node.children@.len()
                &&& may_answer(*visitor, node.children@[i as int]@, true)
                &&& forall|j: int|
                    0 <= j < i ==> may_answer(*visitor, (#[trigger] node.children@[j])@, false)
            },
            None => forall|j: int|
                0 <= j < processed_end && j < node.children@.len() ==> may_answer(
                    *visitor,
                    (#[trigger] node.children@[j])@,
                    false,
                ),
        },
{
    let mut i: usize = 0;
    while i < node.children.len() && i < processed_end
        invariant
            i <= node.children.len(),
            forall|j: int| 0 <= j < i ==> revisits(*visitor, #[trigger] node@.children[j], false),
            forall|j: int|
                0 <= j < i ==> may_answer(*visitor, (#[trigger] node.children@[j])@, false),
        decreases node.children.len() - i,
    {
        assert(node@.children[i as int] == node.children@[i as int]@);
        let revisit = match &node.children[i] {
            RTreeNode::Leaf(leaf) => visitor.should_revisit_leaf(leaf),
            RTreeNode::Parent(parent) => visitor.should_revisit_parent(&parent.envelope),
        };
        if revisit {
            return Some(i);
        }
        i += 1;
    }
    None
}

/// What a traversal of the children of a node comes to.
pub struct VisitSelectedLeavesOutcome {
    /// Number of leaves removed from this subtree.
    pub removed: usize,
    /// Whether a descendant returned `VisitLeafControl::RemoveAndRevisit`, so callers must check
    /// already-processed siblings against the visitor's revisit predicates.
    pub revisit_ancestors: bool,
    /// Whether traversal should stop immediately and unwind without visiting additional siblings.
    pub stopped: bool,
}

impl VisitSelectedLeavesOutcome {
    /// The end of a traversal that has this outcome and leaves `node` and `visitor` behind.
    pub open spec fn of<T: RTreeObject, V>(self, node: Branch<T>, visitor: V) -> Walked<T, V> {
        Walked {
            node,
            removed: self.removed as nat,
            revisit: self.revisit_ancestors,
            stopped: self.stopped,
            visitor,
        }
    }

    /// A traversal that has come this far, with the child at `next` next.
    spec fn at<T: RTreeObject, V>(self, node: Branch<T>, next: int, visitor: V) -> Walk<T, V> {
        Walk {
            node,
            next,
            removed: self.removed as nat,
            revisit: self.revisit_ancestors,
            visitor,
        }
    }
}

/// Removes the leaves below `node` that `visitor` chooses.
///
/// The children are visited in order. A child that is taken out is replaced by the last one, which
/// is visited next. A subtree that has become empty is taken out too. Where a removal asks to go
/// back, the traversal goes on with the first child before it that the visitor wants revisited, at
/// this node and at each one above. The envelope of a node is computed anew if anything below it
/// was removed.
pub fn visit_selected_leaves_in_place<T, V>(
    node: &mut ParentNode<T>,
    visitor: &mut V,
) -> (outcome: VisitSelectedLeavesOutcome) where T: RTreeObject, V: BacktrackingDrainVisitor<T>
    requires
        old(node)@.leaves().len() <= usize::MAX,
    ensures
        traverses(old(node)@, *old(visitor), outcome.of(final(node)@, *final(visitor))),
    decreases weight_of(old(node)@.children),
{
    broadcast use group_models;

    let mut outcome = VisitSelectedLeavesOutcome {
        removed: 0,
        revisit_ancestors: false,
        stopped: false,
    };
    let mut idx: usize = 0;
    let ghost begin = Move::Go(Walk::begin(node@, *visitor));

    while idx < node.children.len()
        invariant
            idx <= node.children.len(),
            !outcome.stopped,
            is_rest_of(node@, old(node)@, outcome.removed as int),
            old(node)@.leaves().len() <= usize::MAX,
            begin == Move::Go(Walk::begin(old(node)@, *old(visitor))),
            forall|end: Walked<T, V>| #[trigger]
                leads_to(Move::Go(outcome.at(node@, idx as int, *visitor)), end) ==> leads_to(
                    begin,
                    end,
                ),
        decreases weight_of(node@.children), node.children.len() - idx,
    {
        broadcast use group_models;

        let ghost walk = outcome.at(node@, idx as int, *visitor);
        let ghost before = node.children@;
        match &mut node.children[idx] {
            RTreeNode::Parent(parent) => {
                let ghost child = parent@;
                if !visitor.should_unpack_parent(&parent.envelope) {
                    idx += 1;
                    proof {
                        assert(node.children@ =~= before);
                        let next = Move::Go(Walk { next: walk.next + 1, ..walk });
                        lemma_move(walk, None, next);
                        lemma_visit(walk, next);
                    }
                    continue;
                }
                proof {
                    lemma_without_child(walk.node, walk.next);
                    lemma_weight_swap_remove(walk.node.children, walk.next);
                }
                let child_outcome = visit_selected_leaves_in_place(parent, visitor);
                let ghost below = child_outcome.of(parent@, *visitor);
                proof {
                    lemma_traverses(child, walk.visitor, below);
                    lemma_with_child(walk.node, walk.next, child, below.node, below.removed as int);
                }
                outcome.removed += child_outcome.removed;
                outcome.revisit_ancestors =
                outcome.revisit_ancestors || child_outcome.revisit_ancestors;
                let ghost back = Walk {
                    node: walk.node.with_child(walk.next, Node::Parent(below.node)),
                    removed: walk.removed + below.removed,
                    revisit: walk.revisit || below.revisit,
                    visitor: below.visitor,
                    ..walk
                };

                if child_outcome.stopped {
                    assert(node@ =~= back.node);
                    if outcome.removed != 0 {
                        node.envelope = envelope_for_children(&node.children);
                    }
                    outcome.stopped = true;
                    proof {
                        lemma_descend(walk, child, below, Move::End(back.ended(true)));
                    }
                    return outcome;
                }

                let child_is_empty = parent.children.is_empty();
                let ghost now = node.children@;
                if child_is_empty {
                    node.children.swap_remove(idx);
                    assert(node.children@ == swap_removed(now, walk.next));
                }
                let ghost past = if below.node.children.len() == 0 {
                    Walk { node: back.node.without_child(walk.next), ..back }
                } else {
                    Walk { next: walk.next + 1, ..back }
                };

                if child_outcome.revisit_ancestors {
                    if let Some(revisit_idx) = first_revisitable_child_index(visitor, node, idx) {
                        idx = revisit_idx;
                        proof {
                            let next = Move::Go(Walk { next: revisit_idx as int, ..past });
                            lemma_move(walk, Some(below), next);
                            lemma_descend(walk, child, below, next);
                        }
                        continue;
                    }
                }
                proof {
                    lemma_move(walk, Some(below), Move::Go(past));
                    lemma_descend(walk, child, below, Move::Go(past));
                }

                if !child_is_empty {
                    idx += 1;
                }
            },
            RTreeNode::Leaf(leaf) => {
                let ghost object = *leaf;
                let control = visitor.visit_leaf(leaf);
                assert(node.children@ =~= before);
                let ghost taken = Walk {
                    node: walk.node.without_child(walk.next),
                    removed: walk.removed + 1,
                    visitor: *visitor,
                    ..walk
                };
                proof {
                    lemma_without_child(walk.node, walk.next);
                }
                match control {
                    VisitLeafControl::Keep => {
                        idx += 1;
                        proof {
                            let kept = Walk { next: walk.next + 1, visitor: *visitor, ..walk };
                            lemma_visit_leaf(walk, object, control, *visitor, Move::Go(kept));
                            lemma_move(walk, None, Move::Go(kept));
                        }
                    },
                    VisitLeafControl::Remove => {
                        node.children.swap_remove(idx);
                        outcome.removed += 1;
                        proof {
                            assert(node.children@ == swap_removed(before, walk.next));
                            lemma_visit_leaf(walk, object, control, *visitor, Move::Go(taken));
                            lemma_move(walk, None, Move::Go(taken));
                        }
                    },
                    VisitLeafControl::RemoveAndRevisit => {
                        node.children.swap_remove(idx);
                        outcome.removed += 1;
                        outcome.revisit_ancestors = true;
                        assert(node.children@ == swap_removed(before, walk.next));

                        let found = first_revisitable_child_index(visitor, node, idx);
                        if let Some(revisit_idx) = found {
                            idx = revisit_idx;
                        }
                        proof {
                            let back = Walk { revisit: true, ..taken };
                            let next = Move::Go(Walk { next: idx as int, ..back });
                            lemma_visit_leaf(walk, object, control, *visitor, next);
                            lemma_move(walk, None, next);
                        }
                    },
                    VisitLeafControl::Stop => {
                        if outcome.removed != 0 {
                            node.envelope = envelope_for_children(&node.children);
                        }
                        outcome.stopped = true;
                        proof {
                            let end = Walk { visitor: *visitor, ..walk }.ended(true);
                            lemma_visit_leaf(walk, object, control, *visitor, Move::End(end));
                        }
                        return outcome;
                    },
                }
            },
        }
    }

    let ghost walk = outcome.at(node@, idx as int, *visitor);
    if outcome.removed != 0 {
        node.envelope = envelope_for_children(&node.children);
    }
    proof {
        lemma_visit(walk, Move::End(walk.ended(false)));
    }
    outcome
}

/// Removes the leaves of `rtree` that `visitor` chooses and returns their number.
pub fn drain_with_backtracking_visitor<T, Params, V>(
    rtree: &mut RTree<T, Params>,
    visitor: &mut V,
) -> (removed: usize) where
    T: RTreeObject,
    Params: RTreeParams,
    V: BacktrackingDrainVisitor<T>,

    requires
        old(rtree).wf(),
    ensures
        drains(
            old(rtree).top(),
            *old(visitor),
            removed as nat,
            final(rtree).top(),
            *final(visitor),
        ),
        final(rtree).count() + removed == old(rtree).count(),
        final(rtree).wf(),
{
    if rtree.root.children.is_empty() || !visitor.should_unpack_parent(&rtree.root.envelope) {
        return 0;
    }
    let outcome = visit_selected_leaves_in_place(&mut rtree.root, visitor);
    proof {
        let end = outcome.of(rtree.root@, *visitor);
        lemma_traverses(old(rtree).top(), *old(visitor), end);
    }
    rtree.size -= outcome.removed;
    outcome.removed
}

} // verus!
