//! Taking a whole tree apart.

use crate::model::{leaves_of, lemma_weight_add, weight_of, Node};
use crate::node::{models, ParentNode, RTreeNode};
use crate::object::RTreeObject;
use vstd::prelude::*;

verus! {

/// Iterator over the objects of a tree.
///
/// Consumes the whole tree and yields all leaf objects.
pub struct IntoIter<T: RTreeObject> {
    node_stack: Vec<RTreeNode<T>>,
}

/// The objects at or below any of `nodes`, those of later nodes first.
pub open spec fn unrolled<T: RTreeObject>(nodes: Seq<Node<T>>) -> Seq<T>
    decreases nodes, nodes.len(),
{
    if nodes.len() == 0 {
        Seq::empty()
    } else {
        let last = match nodes.last() {
            Node::Leaf(object) => seq![object],
            Node::Parent(branch) => unrolled(branch.children),
        };
        last + unrolled(nodes.drop_last())
    }
}

proof fn lemma_unrolled_add<T: RTreeObject>(first: Seq<Node<T>>, second: Seq<Node<T>>)
    ensures
        unrolled(first + second) == unrolled(second) + unrolled(first),
    decreases second.len(),
{
    if second.len() > 0 {
        lemma_unrolled_add(first, second.drop_last());
        assert((first + second).drop_last() =~= first + second.drop_last());
    }
}

/// The objects that are yielded are those of the tree, each as often as the tree holds it.
pub proof fn law_unrolled_is_all_leaves<T: RTreeObject>(nodes: Seq<Node<T>>)
    ensures
        unrolled(nodes).to_multiset() == leaves_of(nodes),
    decreases nodes, nodes.len(),
{
    broadcast use vstd::seq_lib::group_to_multiset_ensures;

    if nodes.len() > 0 {
        let front = unrolled(nodes.drop_last());
        law_unrolled_is_all_leaves(nodes.drop_last());
        let back = match nodes.last() {
            Node::Leaf(object) => {
                seq![object]
            },
            Node::Parent(branch) => {
                law_unrolled_is_all_leaves(branch.children);
                unrolled(branch.children)
            },
        };
        vstd::seq_lib::lemma_multiset_commutative(back, front);
        assert(back.to_multiset() == nodes.last().leaves());
    }
}

impl<T: RTreeObject> IntoIter<T> {
    /// The objects that are still to be yielded, in order.
    pub closed spec fn remaining(self) -> Seq<T> {
        unrolled(models(self.node_stack@))
    }

    /// Creates an iterator over the objects below `root`.
    pub fn new(root: ParentNode<T>) -> (iter: Self)
        ensures
            iter.remaining() == unrolled(root@.children),
    {
        let mut node_stack = Vec::new();
        node_stack.push(RTreeNode::Parent(root));
        let ghost nodes = models(node_stack@);
        assert(unrolled(nodes) =~= unrolled(root@.children)) by {
            reveal_with_fuel(unrolled, 2);
        }
        IntoIter { node_stack }
    }

    /// Yields the next object, `None` if none is left.
    pub fn next(&mut self) -> (object: Option<T>)
        ensures
            match object {
                Some(object) => old(self).remaining() == seq![object] + final(self).remaining(),
                None => old(self).remaining().len() == 0 && final(self).remaining().len() == 0,
            },
    {
        loop
            invariant
                self.remaining() == old(self).remaining(),
            decreases weight_of(models(self.node_stack@)),
        {
            let ghost before = models(self.node_stack@);
            match self.node_stack.pop() {
                Some(RTreeNode::Leaf(object)) => {
                    assert(models(self.node_stack@) =~= before.drop_last());
                    return Some(object);
                },
                Some(RTreeNode::Parent(parent)) => {
                    let ghost rest = models(self.node_stack@);
                    let ghost branch = parent@;
                    let mut children = parent.children;
                    self.node_stack.append(&mut children);
                    proof {
                        assert(rest =~= before.drop_last());
                        assert(before.last().weight() == 2 + weight_of(branch.children));
                        assert(models(self.node_stack@) =~= rest + branch.children);
                        lemma_unrolled_add(rest, branch.children);
                        lemma_weight_add(rest, branch.children);
                    }
                },
                None => {
                    return None;
                },
            }
        }
    }
}

} // verus!
