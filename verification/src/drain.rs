//! Removal of selected objects one at a time.

use crate::drain_steps::{
    advances, closed, collapsed, in_place, leaves_in, lemma_advances, lemma_closed, lemma_start,
    lemma_step, placed, removed_in, start, with_top, work_in, Frame, Step,
};
use crate::model::{lemma_leaves_swap_remove, swap_removed, Branch, Node};
use crate::node::{envelope_for_children, group_models, ParentNode, RTreeNode};
use crate::object::{Envelope, RTreeObject};
use crate::params::RTreeParams;
use crate::rtree::RTree;
use crate::selection::SelectionFunction;
use vstd::arithmetic::power::{lemma_pow0, lemma_pow_increases, pow};
use vstd::arithmetic::power2::{lemma2_to64, lemma_pow2};
use vstd::prelude::*;

verus! {

/// The model of a node that is being drained.
pub open spec fn frame_of<T: RTreeObject>(frame: (ParentNode<T>, usize, usize)) -> Frame<T> {
    Frame { node: frame.0@, next: frame.1 as int, removed: frame.2 as nat }
}

/// Iterator that removes the objects of a tree that a [`SelectionFunction`] selects.
///
/// # Remarks
///
/// An object is removed when it is yielded. While the iterator is at work the tree is empty;
/// it is put back by the call of [`DrainIterator::next`] that finds nothing left, or by
/// [`DrainIterator::drop`] at any point before. The type has no destructor, so an iterator that
/// goes out of scope before either is leaked, which leads to a leak amplification where all
/// elements of the tree are leaked.
pub struct DrainIterator<'a, T, R, Params> where
    T: RTreeObject,
    Params: RTreeParams,
    R: SelectionFunction<T>,
 {
    pub(crate) node_stack: Vec<(ParentNode<T>, usize, usize)>,
    pub(crate) removal_function: R,
    pub(crate) rtree: &'a mut RTree<T, Params>,
    pub(crate) original_size: usize,
}

impl<'a, T, R, Params> DrainIterator<'a, T, R, Params> where
    T: RTreeObject,
    Params: RTreeParams,
    R: SelectionFunction<T>,
 {
    /// The nodes that are being drained, from the root downwards.
    pub open(crate) spec fn frames(&self) -> Seq<Frame<T>> {
        self.node_stack@.map_values(|frame: (ParentNode<T>, usize, usize)| frame_of(frame))
    }

    /// The function that selects what to remove.
    pub open(crate) spec fn function(&self) -> R {
        self.removal_function
    }

    /// The number of objects that the tree held.
    pub open(crate) spec fn original(&self) -> nat {
        self.original_size as nat
    }

    /// The tree that is being drained.
    pub open(crate) spec fn tree(&self) -> &'a mut RTree<T, Params> {
        self.rtree
    }

    /// Whether each object of the tree is in exactly one place: it was removed, it is below one of
    /// the nodes that are being drained, or it was put back.
    pub open spec fn wf(&self) -> bool {
        let frames = self.frames();
        &&& in_place(frames)
        &&& self.tree().wf()
        &&& frames.len() > 0 ==> {
            &&& leaves_in(frames).len() + removed_in(frames) == self.original()
            &&& self.tree().top().children.len() == 0
        }
    }

    /// Starts to drain `rtree` of the objects that `removal_function` selects. The tree is left
    /// empty until it is put back.
    pub fn new(rtree: &'a mut RTree<T, Params>, removal_function: R) -> (iter: Self)
        requires
            old(rtree).wf(),
        ensures
            iter.wf(),
            iter.frames() == start(old(rtree).top()),
            iter.function() == removal_function,
            iter.original() == old(rtree).count(),
            iter.tree().top() == (Branch::<T> {
                children: Seq::empty(),
                envelope: T::Envelope::nothing(),
            }),
            iter.tree().count() == 0,
            *final(iter.tree()) == *final(rtree),
    {
        let mut root = ParentNode { children: Vec::new(), envelope: T::Envelope::new_empty() };
        assert(root@.children =~= Seq::empty());
        core::mem::swap(&mut rtree.root, &mut root);
        let original_size = rtree.size;
        rtree.size = 0;
        let mut node_stack = Vec::with_capacity(max_depth(original_size, Params::MIN_SIZE));
        node_stack.push((root, 0, 0));
        let iter = DrainIterator { node_stack, original_size, removal_function, rtree };
        proof {
            lemma_start(root@);
            assert(iter.frames() =~= start(root@));
        }
        iter
    }

    /// Puts the last node back into the one above, or hands it out as the root, with the number of
    /// objects removed, if there is none. With `increment_idx` the node above goes on after it.
    pub fn pop_node(&mut self, increment_idx: bool) -> (popped: Option<(ParentNode<T>, usize)>)
        requires
            old(self).wf(),
            old(self).frames().len() > 0,
        ensures
            match popped {
                Some((root, removed)) => {
                    &&& closed(old(self).frames(), increment_idx) == Step::Finish(
                        root@,
                        removed as nat,
                    )
                    &&& final(self).frames().len() == 0
                },
                None => closed(old(self).frames(), increment_idx) == Step::Move(
                    final(self).frames(),
                ),
            },
            final(self).wf(),
            final(self).function() == old(self).function(),
            final(self).original() == old(self).original(),
            *final(self).tree() == *old(self).tree(),
            *final(final(self).tree()) == *final(old(self).tree()),
    {
        broadcast use group_models;

        let ghost frames = self.frames();
        proof {
            lemma_closed(frames, increment_idx);
        }
        match self.node_stack.pop() {
            None => None,
            Some((popped, _, num_removed)) => {
                let mut node = popped;
                if num_removed > 0 {
                    node.envelope = envelope_for_children(&node.children);
                }
                let ghost back = Node::Parent(node@);
                let ghost rest = self.frames();
                assert(rest =~= frames.drop_last());
                let depth = self.node_stack.len();
                if depth == 0 {
                    return Some((node, num_removed));
                }
                let ghost children = rest.last().node.children;
                let above = &mut self.node_stack[depth - 1];
                above.2 += num_removed;
                if node.children.is_empty() {
                    proof {
                        let now = frame_of(self.node_stack@[depth - 1]);
                        assert(self.frames() =~= with_top(rest, now));
                    }
                    return None;
                }
                if !increment_idx {
                    above.0.children.push(RTreeNode::Parent(node));
                    proof {
                        let now = frame_of(self.node_stack@[depth - 1]);
                        assert(now.node.children == children.push(back));
                        assert(self.frames() =~= with_top(rest, now));
                    }
                    return None;
                }
                let mut slot = RTreeNode::Parent(node);
                if above.1 < above.0.children.len() {
                    core::mem::swap(&mut above.0.children[above.1], &mut slot);
                }
                above.0.children.push(slot);
                assert(above.1 < above.0.children.len());
                above.1 += 1;
                proof {
                    let now = frame_of(self.node_stack@[depth - 1]);
                    assert(now.node.children == placed(children, rest.last().next, back));
                    assert(self.frames() =~= with_top(rest, now));
                }
                None
            },
        }
    }

    /// Removes the next selected object and yields it. If none is left, puts the tree back and
    /// yields `None`.
    pub fn next(&mut self) -> (object: Option<T>)
        requires
            old(self).wf(),
        ensures
            match object {
                Some(object) => {
                    &&& old(self).frames().len() > 0
                    &&& advances(
                        old(self).function(),
                        old(self).frames(),
                        Step::Yield(object, final(self).frames()),
                    )
                    &&& final(self).frames().len() > 0
                    &&& *final(self).tree() == *old(self).tree()
                },
                None => {
                    &&& final(self).frames().len() == 0
                    &&& old(self).frames().len() == 0 ==> *final(self).tree() == *old(self).tree()
                    &&& old(self).frames().len() > 0 ==> {
                        let removed = removed_in(old(self).frames());
                        &&& advances(
                            old(self).function(),
                            old(self).frames(),
                            Step::Finish(final(self).tree().top(), removed),
                        )
                        &&& final(self).tree().count() + removed == old(self).original()
                    }
                },
            },
            final(self).wf(),
            final(self).function() == old(self).function(),
            final(self).original() == old(self).original(),
            *final(final(self).tree()) == *final(old(self).tree()),
    {
        broadcast use group_models;

        if self.node_stack.is_empty() {
            return None;
        }
        let ghost function = self.function();
        let ghost first = self.frames();
        loop
            invariant
                self.wf(),
                self.frames().len() > 0,
                self.function() == function,
                function == old(self).function(),
                first == old(self).frames(),
                first.len() > 0,
                self.original() == old(self).original(),
                *self.tree() == *old(self).tree(),
                *final(self.tree()) == *final(old(self).tree()),
                removed_in(self.frames()) == removed_in(first),
                forall|end: Step<T>| #[trigger]
                    advances(function, self.frames(), end) ==> advances(function, first, end),
            decreases work_in(self.frames()),
        {
            broadcast use group_models;

            let ghost frames = self.frames();
            let ghost top = frames.last();
            let ghost stack = self.node_stack@;
            let ghost original = self.original();
            let depth = self.node_stack.len();
            let ghost without = Frame { node: top.node.without_child(top.next), ..top };
            let frame = &mut self.node_stack[depth - 1];
            let open = frame.1 > 0 || self.removal_function.should_unpack_parent(&frame.0.envelope);
            if open && frame.1 < frame.0.children.len() {
                match &frame.0.children[frame.1] {
                    RTreeNode::Parent(_) => {
                        // The last child, if there is another one, takes the place of this one and
                        // is next when the node is the last one again.
                        match frame.0.children.swap_remove(frame.1) {
                            RTreeNode::Parent(child) => {
                                self.node_stack.push((child, 0, 0));
                            },
                            RTreeNode::Leaf(_) => vstd::pervasive::unreached(),
                        }
                        proof {
                            assert(self.node_stack@[depth - 1].0.children@ == swap_removed(
                                stack[depth - 1].0.children@,
                                top.next,
                            ));
                            assert(frame_of(self.node_stack@[depth - 1]) =~= without);
                            assert(self.frames() =~= with_top(frames, without).push(
                                self.frames().last(),
                            ));
                            let step = Step::Move(self.frames());
                            lemma_step(function, frames, step);
                            lemma_advances(function, frames, step);
                        }
                    },
                    RTreeNode::Leaf(leaf) => {
                        if self.removal_function.should_unpack_leaf(leaf) {
                            assert(top.removed < original) by {
                                lemma_leaves_swap_remove(top.node.children, top.next);
                            }
                            frame.2 += 1;
                            match frame.0.children.swap_remove(frame.1) {
                                RTreeNode::Leaf(object) => {
                                    proof {
                                        let now = Frame { removed: top.removed + 1, ..without };
                                        let rest = swap_removed(
                                            stack[depth - 1].0.children@,
                                            top.next,
                                        );
                                        assert(self.node_stack@[depth - 1].0.children@ == rest);
                                        assert(frame_of(self.node_stack@[depth - 1]) =~= now);
                                        assert(self.frames() =~= with_top(frames, now));
                                        let step = Step::Yield(object, self.frames());
                                        lemma_step(function, frames, step);
                                        lemma_advances(function, frames, step);
                                    }
                                    return Some(object);
                                },
                                RTreeNode::Parent(_) => vstd::pervasive::unreached(),
                            }
                        }
                        frame.1 += 1;
                        proof {
                            let now = Frame { next: top.next + 1, ..top };
                            assert(self.frames() =~= with_top(frames, now));
                            let step = Step::Move(self.frames());
                            lemma_step(function, frames, step);
                            lemma_advances(function, frames, step);
                        }
                    },
                }
            } else {
                assert(self.node_stack@ =~= stack);
                proof {
                    lemma_step(function, frames, closed(frames, true));
                    lemma_advances(function, frames, closed(frames, true));
                }
                if let Some((new_root, total_removed)) = self.pop_node(true) {
                    self.rtree.root = new_root;
                    self.rtree.size = self.original_size - total_removed;
                    return None;
                }
            }
        }
    }

    /// Puts the tree back, without the objects that were yielded.
    pub fn drop(&mut self)
        requires
            old(self).wf(),
        ensures
            old(self).frames().len() == 0 ==> *final(self).tree() == *old(self).tree(),
            old(self).frames().len() > 0 ==> {
                &&& final(self).tree().top() == collapsed(old(self).frames()).0
                &&& final(self).tree().count() + collapsed(old(self).frames()).1 == old(
                    self,
                ).original()
            },
            final(self).frames().len() == 0,
            final(self).wf(),
            final(self).function() == old(self).function(),
            final(self).original() == old(self).original(),
            *final(final(self).tree()) == *final(old(self).tree()),
    {
        if self.node_stack.is_empty() {
            return;
        }
        let ghost first = self.frames();
        loop
            invariant
                self.wf(),
                self.frames().len() > 0,
                self.function() == old(self).function(),
                first == old(self).frames(),
                first.len() > 0,
                self.original() == old(self).original(),
                *self.tree() == *old(self).tree(),
                *final(self.tree()) == *final(old(self).tree()),
                collapsed(self.frames()) == collapsed(first),
            decreases self.frames().len(),
        {
            proof {
                lemma_closed(self.frames(), false);
            }
            if let Some((new_root, total_removed)) = self.pop_node(false) {
                self.rtree.root = new_root;
                self.rtree.size = self.original_size - total_removed;
                return;
            }
        }
    }
}

/// Whether `depth` is the least exponent for which the power of `base` is no less than `size`.
pub open spec fn is_log(size: nat, base: nat, depth: nat) -> bool {
    &&& size <= pow(base as int, depth)
    &&& depth > 0 ==> pow(base as int, (depth - 1) as nat) < size
}

/// Returns the number of levels of a tree of `size` objects, where each node has `min_size`
/// children, or two if that is less.
fn max_depth(size: usize, min_size: usize) -> (depth: usize)
    ensures
        is_log(
            size as nat,
            if min_size < 2 {
                2
            } else {
                min_size as nat
            },
            depth as nat,
        ),
        depth <= 64,
{
    let base: usize = if min_size < 2 {
        2
    } else {
        min_size
    };
    let mut depth: usize = 0;
    let mut reach: usize = 1;
    proof {
        lemma_pow0(base as int);
        lemma_pow0(2);
    }
    while reach < size
        invariant
            base == if min_size < 2 {
                2
            } else {
                min_size
            },
            reach >= 1,
            reach == pow(base as int, depth as nat),
            pow(2, depth as nat) <= reach,
            depth > 0 ==> pow(base as int, (depth - 1) as nat) < size,
            depth <= 64,
        decreases 64 - depth,
    {
        proof {
            if depth >= 64 {
                lemma_pow_increases(2, 64, depth as nat);
                lemma_pow2(64);
                lemma2_to64();
            }
            reveal(pow);
            assert(reach * base == base * reach >= 2 * reach) by (nonlinear_arith)
                requires
                    base >= 2,
                    reach >= 1,
            ;
        }
        depth += 1;
        match reach.checked_mul(base) {
            Some(product) => {
                reach = product;
            },
            None => {
                return depth;
            },
        }
    }
    depth
}

} // verus!
