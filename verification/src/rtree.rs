//! The tree.

use crate::backtracking;
use crate::drain::DrainIterator;
use crate::drain_steps::{advances, collapsed, start, Frame, Step};
use crate::into_iter::{unrolled, IntoIter};
use crate::model::{leaves_of, Branch, Node};
use crate::node::{group_models, models, ParentNode, RTreeNode};
use crate::object::{Envelope, RTreeObject};
use crate::params::{DefaultParams, RTreeParams};
use crate::selection::SelectionFunction;
use crate::traversal::drains;
use crate::visitor::BacktrackingDrainVisitor;
use core::marker::PhantomData;
use vstd::multiset::Multiset;
use vstd::prelude::*;

verus! {

/// An R-tree.
pub struct RTree<T: RTreeObject, Params: RTreeParams = DefaultParams> {
    pub(crate) root: ParentNode<T>,
    pub(crate) size: usize,
    pub(crate) params: PhantomData<Params>,
}

/// Returns the number of objects below `node`.
fn count_leaves<T: RTreeObject>(node: &ParentNode<T>) -> (count: usize)
    requires
        node@.leaves().len() <= usize::MAX,
    ensures
        count == node@.leaves().len(),
    decreases node,
{
    broadcast use group_models;

    let mut count: usize = 0;
    let mut i: usize = 0;
    let ghost nodes = models(node.children@);
    while i < node.children.len()
        invariant
            i <= node.children.len(),
            nodes == models(node.children@),
            count == leaves_of(nodes.take(i as int)).len(),
            leaves_of(nodes).len() <= usize::MAX,
        decreases node.children.len() - i,
    {
        proof {
            assert(nodes.take(i + 1).drop_last() =~= nodes.take(i as int));
            assert(leaves_of(nodes.take(i + 1)) == leaves_of(nodes.take(i as int)).add(
                node.children@[i as int]@.leaves(),
            ));
            lemma_count_grows(nodes, i + 1);
        }
        match &node.children[i] {
            RTreeNode::Leaf(_) => {
                count += 1;
            },
            RTreeNode::Parent(parent) => {
                count += count_leaves(parent);
            },
        }
        i += 1;
    }
    assert(nodes.take(i as int) =~= nodes);
    count
}

proof fn lemma_count_grows<T: RTreeObject>(nodes: Seq<Node<T>>, n: int)
    requires
        0 <= n <= nodes.len(),
    ensures
        leaves_of(nodes.take(n)).len() <= leaves_of(nodes).len(),
    decreases nodes.len(),
{
    if n == nodes.len() {
        assert(nodes.take(n) =~= nodes);
    } else {
        lemma_count_grows(nodes.drop_last(), n);
        assert(nodes.drop_last().take(n) =~= nodes.take(n));
    }
}

impl<T: RTreeObject, Params: RTreeParams> RTree<T, Params> {
    /// The root node.
    pub open(crate) spec fn top(self) -> Branch<T> {
        self.root@
    }

    /// The recorded number of objects.
    pub open(crate) spec fn count(self) -> nat {
        self.size as nat
    }

    /// The objects that the tree holds.
    pub open spec fn leaves(self) -> Multiset<T> {
        self.top().leaves()
    }

    /// Whether the recorded number of objects is the number of objects that the tree holds.
    pub open spec fn wf(self) -> bool {
        self.leaves().len() == self.count()
    }

    /// Creates the tree with the given root.
    pub fn from_root(root: ParentNode<T>) -> (tree: Self)
        requires
            root@.leaves().len() <= usize::MAX,
        ensures
            tree.top() == root@,
            tree.wf(),
    {
        let size = count_leaves(&root);
        RTree { root, size, params: PhantomData }
    }

    /// Returns the root node.
    pub fn root(&self) -> (root: &ParentNode<T>)
        ensures
            root@ == self.top(),
    {
        &self.root
    }

    /// Returns the number of objects in the tree.
    pub fn size(&self) -> (size: usize)
        ensures
            size == self.count(),
    {
        self.size
    }

    /// Takes the tree apart and yields all its objects.
    pub fn into_iter(self) -> (iter: IntoIter<T>)
        ensures
            iter.remaining() == unrolled(self.top().children),
    {
        IntoIter::new(self.root)
    }

    /// Drains the tree of the objects that `function` selects.
    pub fn drain_with_selection_function<R>(&mut self, function: R) -> (iter: DrainIterator<
        '_,
        T,
        R,
        Params,
    >) where R: SelectionFunction<T>
        requires
            old(self).wf(),
        ensures
            iter.wf(),
            iter.frames() == start(old(self).top()),
            iter.function() == function,
            iter.original() == old(self).count(),
            iter.tree().top() == (Branch::<T> {
                children: Seq::empty(),
                envelope: T::Envelope::nothing(),
            }),
            iter.tree().count() == 0,
            *final(iter.tree()) == *final(self),
    {
        DrainIterator::new(self, function)
    }

    /// Removes one object that `function` selects and returns it, `None` if there is none.
    pub fn remove_with_selection_function<R>(&mut self, function: R) -> (object: Option<T>) where
        R: SelectionFunction<T>,

        requires
            old(self).wf(),
        ensures
            match object {
                Some(object) => exists|frames: Seq<Frame<T>>|
                    {
                        &&& #[trigger] advances(
                            function,
                            start(old(self).top()),
                            Step::Yield(object, frames),
                        )
                        &&& final(self).top() == collapsed(frames).0
                        &&& final(self).count() + collapsed(frames).1 == old(self).count()
                    },
                None => {
                    &&& advances(
                        function,
                        start(old(self).top()),
                        Step::Finish(final(self).top(), 0),
                    )
                    &&& final(self).count() == old(self).count()
                },
            },
            final(self).wf(),
    {
        let mut iter = DrainIterator::new(self, function);
        let object = iter.next();
        iter.drop();
        object
    }

    /// Removes the objects that `visitor` chooses and returns their number.
    pub fn drain_with_backtracking_visitor<V>(&mut self, visitor: &mut V) -> (removed: usize) where
        V: BacktrackingDrainVisitor<T>,

        requires
            old(self).wf(),
        ensures
            drains(
                old(self).top(),
                *old(visitor),
                removed as nat,
                final(self).top(),
                *final(visitor),
            ),
            final(self).count() + removed == old(self).count(),
            final(self).wf(),
    {
        backtracking::drain_with_backtracking_visitor(self, visitor)
    }
}

} // verus!
