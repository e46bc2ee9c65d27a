//! The nodes of the tree.

use crate::model::{envelope_of, swap_removed, Branch, Node};
use crate::object::{Envelope, RTreeObject};
use vstd::prelude::*;

verus! {

/// A child of a parent node.
pub enum RTreeNode<T: RTreeObject> {
    /// An object.
    Leaf(T),
    /// A subtree.
    Parent(ParentNode<T>),
}

/// An inner node of the tree.
pub struct ParentNode<T: RTreeObject> {
    /// The node's children, in no particular order.
    pub children: Vec<RTreeNode<T>>,
    /// The envelope around all children.
    pub envelope: T::Envelope,
}

impl<T: RTreeObject> RTreeNode<T> {
    /// The node as a mathematical value.
    pub open spec fn view(&self) -> Node<T>
        decreases self,
    {
        match self {
            RTreeNode::Leaf(object) => Node::Leaf(*object),
            RTreeNode::Parent(parent) => Node::Parent(parent.view()),
        }
    }
}

impl<T: RTreeObject> ParentNode<T> {
    /// Creates an inner node from its children.
    pub fn new_parent(children: Vec<RTreeNode<T>>) -> (parent: Self)
        ensures
            parent@.children == models(children@),
            parent@.envelope == envelope_of(models(children@)),
    {
        let envelope = envelope_for_children(&children);
        ParentNode { children, envelope }
    }

    /// The node as a mathematical value.
    pub open spec fn view(&self) -> Branch<T>
        decreases self,
    {
        Branch {
            children: Seq::new(
                self.children@.len(),
                |i: int|
                    if 0 <= i < self.children@.len() {
                        self.children@[i].view()
                    } else {
                        arbitrary()
                    },
            ),
            envelope: self.envelope,
        }
    }
}

/// The model of a sequence of nodes.
pub open spec fn models<T: RTreeObject>(nodes: Seq<RTreeNode<T>>) -> Seq<Node<T>> {
    nodes.map_values(|node: RTreeNode<T>| node@)
}

/// The children of a node's model are the models of its children.
pub broadcast proof fn lemma_parent_view<T: RTreeObject>(parent: ParentNode<T>)
    ensures
        #[trigger] parent@.children == models(parent.children@),
{
}

pub broadcast proof fn lemma_models_update<T: RTreeObject>(
    nodes: Seq<RTreeNode<T>>,
    i: int,
    node: RTreeNode<T>,
)
    requires
        0 <= i < nodes.len(),
    ensures
        #[trigger] models(nodes.update(i, node)) == models(nodes).update(i, node@),
{
}

pub broadcast proof fn lemma_models_push<T: RTreeObject>(
    nodes: Seq<RTreeNode<T>>,
    node: RTreeNode<T>,
)
    ensures
        #[trigger] models(nodes.push(node)) == models(nodes).push(node@),
{
}

pub broadcast proof fn lemma_models_swap_remove<T: RTreeObject>(
    nodes: Seq<RTreeNode<T>>,
    i: int,
)
    requires
        0 <= i < nodes.len(),
    ensures
        #[trigger] models(swap_removed(nodes, i)) == swap_removed(models(nodes), i),
{
}

pub broadcast group group_models {
    lemma_parent_view,
    lemma_models_update,
    lemma_models_push,
    lemma_models_swap_remove,
}

/// Returns the envelope around all of `children`.
pub fn envelope_for_children<T: RTreeObject>(children: &Vec<RTreeNode<T>>) -> (envelope:
    T::Envelope)
    ensures
        envelope == envelope_of(models(children@)),
{
    let mut result = T::Envelope::new_empty();
    let mut i: usize = 0;
    while i < children.len()
        invariant
            i <= children.len(),
            result == envelope_of(models(children@).take(i as int)),
        decreases children.len() - i,
    {
        assert(models(children@).take(i + 1).drop_last() =~= models(children@).take(i as int));
        match &children[i] {
            RTreeNode::Leaf(object) => {
                result.merge(&object.envelope());
            },
            RTreeNode::Parent(parent) => {
                result.merge(&parent.envelope);
            },
        }
        i += 1;
    }
    assert(models(children@).take(i as int) =~= models(children@));
    result
}

} // verus!
