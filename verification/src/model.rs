//! The tree as a mathematical value.

use crate::object::{joins_in_any_order, Envelope, RTreeObject};
use vstd::multiset::Multiset;
use vstd::prelude::*;

verus! {

/// A node: an object or a subtree.
#[verifier::ext_equal]
pub enum Node<T: RTreeObject> {
    Leaf(T),
    Parent(Branch<T>),
}

/// A subtree: its children and the envelope that it records for them.
#[verifier::ext_equal]
pub struct Branch<T: RTreeObject> {
    pub children: Seq<Node<T>>,
    pub envelope: T::Envelope,
}

impl<T: RTreeObject> Node<T> {
    /// The envelope of the object, or the one that the subtree records.
    pub open spec fn envelope(self) -> T::Envelope {
        match self {
            Node::Leaf(object) => object.bounds(),
            Node::Parent(branch) => branch.envelope,
        }
    }

    /// The objects at or below this node.
    pub open spec fn leaves(self) -> Multiset<T>
        decreases self, 0nat,
    {
        match self {
            Node::Leaf(object) => Multiset::singleton(object),
            Node::Parent(branch) => leaves_of(branch.children),
        }
    }

    /// A measure of the work that is left when nothing at or below this node has been visited.
    pub open spec fn weight(self) -> nat
        decreases self, 0nat,
    {
        match self {
            Node::Leaf(_) => 1,
            Node::Parent(branch) => 2 + weight_of(branch.children),
        }
    }
}

/// The objects at or below any of `nodes`.
pub open spec fn leaves_of<T: RTreeObject>(nodes: Seq<Node<T>>) -> Multiset<T>
    decreases nodes, nodes.len(),
{
    if nodes.len() == 0 {
        Multiset::empty()
    } else {
        leaves_of(nodes.drop_last()).add(nodes.last().leaves())
    }
}

/// The sum of the weights of `nodes`.
pub open spec fn weight_of<T: RTreeObject>(nodes: Seq<Node<T>>) -> nat
    decreases nodes, nodes.len(),
{
    if nodes.len() == 0 {
        0
    } else {
        weight_of(nodes.drop_last()) + nodes.last().weight()
    }
}

/// The envelope around all of `nodes`, merged in from the first to the last.
pub open spec fn envelope_of<T: RTreeObject>(nodes: Seq<Node<T>>) -> T::Envelope
    decreases nodes.len(),
{
    if nodes.len() == 0 {
        T::Envelope::nothing()
    } else {
        envelope_of(nodes.drop_last()).join(nodes.last().envelope())
    }
}

/// What is left of `items` when the one at `i` is taken out and the last one takes its place.
pub open spec fn swap_removed<A>(items: Seq<A>, i: int) -> Seq<A> {
    items.update(i, items.last()).drop_last()
}

impl<T: RTreeObject> Branch<T> {
    /// The objects below this node.
    pub open spec fn leaves(self) -> Multiset<T> {
        leaves_of(self.children)
    }

    /// This node with the child at `i` replaced.
    pub open spec fn with_child(self, i: int, child: Node<T>) -> Self {
        Branch { children: self.children.update(i, child), envelope: self.envelope }
    }

    /// This node with the child at `i` taken out.
    pub open spec fn without_child(self, i: int) -> Self {
        Branch { children: swap_removed(self.children, i), envelope: self.envelope }
    }

    /// This node as it is left behind after `removed` objects below it were removed: its
    /// envelope is computed anew if that is more than none.
    pub open spec fn settled(self, removed: nat) -> Self {
        if removed == 0 {
            self
        } else {
            Branch { children: self.children, envelope: envelope_of(self.children) }
        }
    }
}

pub proof fn lemma_leaves_update<T: RTreeObject>(nodes: Seq<Node<T>>, i: int, node: Node<T>)
    requires
        0 <= i < nodes.len(),
    ensures
        leaves_of(nodes.update(i, node)).add(nodes[i].leaves()) == leaves_of(nodes).add(
            node.leaves(),
        ),
    decreases nodes.len(),
{
    let after = nodes.update(i, node);
    if i == nodes.len() - 1 {
        assert(after.drop_last() =~= nodes.drop_last());
    } else {
        assert(after.drop_last() =~= nodes.drop_last().update(i, node));
        lemma_leaves_update(nodes.drop_last(), i, node);
    }
    assert forall|t: T|
        leaves_of(after).add(nodes[i].leaves()).count(t) == leaves_of(nodes).add(
            node.leaves(),
        ).count(t) by {
        if i < nodes.len() - 1 {
            let front = nodes.drop_last();
            assert(leaves_of(front.update(i, node)).add(front[i].leaves()).count(t) == leaves_of(
                front,
            ).add(node.leaves()).count(t));
        }
    }
}

pub proof fn lemma_leaves_swap_remove<T: RTreeObject>(nodes: Seq<Node<T>>, i: int)
    requires
        0 <= i < nodes.len(),
    ensures
        leaves_of(swap_removed(nodes, i)).add(nodes[i].leaves()) == leaves_of(nodes),
{
    let last = nodes.last();
    lemma_leaves_update(nodes, i, last);
    let after = nodes.update(i, last);
    assert(leaves_of(swap_removed(nodes, i)).add(nodes[i].leaves()) =~= leaves_of(nodes)) by {
        assert forall|t: T|
            leaves_of(swap_removed(nodes, i)).add(nodes[i].leaves()).count(t) == leaves_of(
                nodes,
            ).count(t) by {
            assert(leaves_of(after).add(nodes[i].leaves()).count(t) == leaves_of(nodes).add(
                last.leaves(),
            ).count(t));
        }
    }
}

/// An object below one of several nodes is at or below one of them.
pub proof fn lemma_leaf_at<T: RTreeObject>(nodes: Seq<Node<T>>, x: T) -> (i: int)
    requires
        leaves_of(nodes).count(x) > 0,
    ensures
        0 <= i < nodes.len(),
        nodes[i].leaves().count(x) > 0,
    decreases nodes.len(),
{
    if nodes.last().leaves().count(x) > 0 {
        nodes.len() - 1
    } else {
        lemma_leaf_at(nodes.drop_last(), x)
    }
}

pub proof fn lemma_leaf_counts<T: RTreeObject>(nodes: Seq<Node<T>>, i: int, x: T)
    requires
        0 <= i < nodes.len(),
    ensures
        nodes[i].leaves().count(x) <= leaves_of(nodes).count(x),
{
    lemma_leaves_swap_remove(nodes, i);
}

pub proof fn lemma_weight_update<T: RTreeObject>(nodes: Seq<Node<T>>, i: int, node: Node<T>)
    requires
        0 <= i < nodes.len(),
    ensures
        weight_of(nodes.update(i, node)) + nodes[i].weight() == weight_of(nodes) + node.weight(),
    decreases nodes.len(),
{
    let after = nodes.update(i, node);
    if i == nodes.len() - 1 {
        assert(after.drop_last() =~= nodes.drop_last());
    } else {
        assert(after.drop_last() =~= nodes.drop_last().update(i, node));
        lemma_weight_update(nodes.drop_last(), i, node);
    }
}

pub proof fn lemma_weight_swap_remove<T: RTreeObject>(nodes: Seq<Node<T>>, i: int)
    requires
        0 <= i < nodes.len(),
    ensures
        weight_of(swap_removed(nodes, i)) + nodes[i].weight() == weight_of(nodes),
{
    lemma_weight_update(nodes, i, nodes.last());
}

pub proof fn lemma_weight_add<T: RTreeObject>(first: Seq<Node<T>>, second: Seq<Node<T>>)
    ensures
        weight_of(first + second) == weight_of(first) + weight_of(second),
    decreases second.len(),
{
    if second.len() > 0 {
        lemma_weight_add(first, second.drop_last());
        assert((first + second).drop_last() =~= first + second.drop_last());
    }
}

pub proof fn lemma_weight_skip<T: RTreeObject>(nodes: Seq<Node<T>>, i: int)
    requires
        0 <= i < nodes.len(),
    ensures
        weight_of(nodes.skip(i)) == nodes[i].weight() + weight_of(nodes.skip(i + 1)),
{
    let first = seq![nodes[i]];
    assert(nodes.skip(i) =~= first + nodes.skip(i + 1));
    lemma_weight_add(first, nodes.skip(i + 1));
    assert(weight_of(first) == nodes[i].weight()) by {
        reveal_with_fuel(weight_of, 2);
    }
}

/// Which subtrees may hold chosen objects, by their envelope, and which objects are chosen.
#[verifier::reject_recursive_types(T)]
pub struct Choice<T: RTreeObject> {
    pub parents: spec_fn(T::Envelope) -> bool,
    pub objects: spec_fn(T) -> bool,
}

impl<T: RTreeObject> Choice<T> {
    /// The chosen objects at or below `node`: those that are reached through subtrees that may
    /// hold chosen objects.
    pub open spec fn among(self, node: Node<T>) -> Multiset<T>
        decreases node, 0nat,
    {
        match node {
            Node::Leaf(object) => if (self.objects)(object) {
                Multiset::singleton(object)
            } else {
                Multiset::empty()
            },
            Node::Parent(branch) => if (self.parents)(branch.envelope) {
                self.among_all(branch.children)
            } else {
                Multiset::empty()
            },
        }
    }

    /// The chosen objects at or below any of `nodes`.
    pub open spec fn among_all(self, nodes: Seq<Node<T>>) -> Multiset<T>
        decreases nodes, nodes.len(),
    {
        if nodes.len() == 0 {
            Multiset::empty()
        } else {
            self.among_all(nodes.drop_last()).add(self.among(nodes.last()))
        }
    }

    pub proof fn lemma_update(self, nodes: Seq<Node<T>>, i: int, node: Node<T>)
        requires
            0 <= i < nodes.len(),
        ensures
            self.among_all(nodes.update(i, node)).add(self.among(nodes[i])) == self.among_all(
                nodes,
            ).add(self.among(node)),
        decreases nodes.len(),
    {
        let after = nodes.update(i, node);
        let front = nodes.drop_last();
        if i == nodes.len() - 1 {
            assert(after.drop_last() =~= front);
        } else {
            assert(after.drop_last() =~= front.update(i, node));
            self.lemma_update(front, i, node);
        }
        assert forall|t: T|
            self.among_all(after).add(self.among(nodes[i])).count(t) == self.among_all(nodes).add(
                self.among(node),
            ).count(t) by {
            if i < nodes.len() - 1 {
                assert(self.among_all(front.update(i, node)).add(self.among(front[i])).count(t)
                    == self.among_all(front).add(self.among(node)).count(t));
            }
        }
    }

    pub proof fn lemma_swap_remove(self, nodes: Seq<Node<T>>, i: int)
        requires
            0 <= i < nodes.len(),
        ensures
            self.among_all(swap_removed(nodes, i)).add(self.among(nodes[i])) == self.among_all(
                nodes,
            ),
    {
        let last = nodes.last();
        let after = nodes.update(i, last);
        self.lemma_update(nodes, i, last);
        assert forall|t: T|
            self.among_all(swap_removed(nodes, i)).add(self.among(nodes[i])).count(t)
                == self.among_all(nodes).count(t) by {
            assert(self.among_all(after).add(self.among(nodes[i])).count(t) == self.among_all(
                nodes,
            ).add(self.among(last)).count(t));
        }
    }

    pub proof fn lemma_skip(self, nodes: Seq<Node<T>>, i: int)
        requires
            0 <= i < nodes.len(),
        ensures
            self.among_all(nodes.skip(i)) == self.among(nodes[i]).add(
                self.among_all(nodes.skip(i + 1)),
            ),
        decreases nodes.len(),
    {
        let back = nodes.skip(i);
        if i == nodes.len() - 1 {
            assert(back.drop_last() =~= Seq::empty());
            assert(nodes.skip(i + 1) =~= Seq::empty());
        } else {
            let front = nodes.drop_last();
            self.lemma_skip(front, i);
            assert(back.drop_last() =~= front.skip(i));
            assert(nodes.skip(i + 1).drop_last() =~= front.skip(i + 1));
        }
    }
}

impl<T: RTreeObject> Node<T> {
    /// Whether each subtree at or below this node has children.
    pub open spec fn is_full(self) -> bool
        decreases self,
    {
        match self {
            Node::Leaf(_) => true,
            Node::Parent(branch) => {
                &&& branch.children.len() > 0
                &&& forall|i: int|
                    0 <= i < branch.children.len() ==> (#[trigger] branch.children[i]).is_full()
            },
        }
    }

    /// Whether each subtree at or below this node has the envelope around its children.
    pub open spec fn is_tight(self) -> bool
        decreases self,
    {
        match self {
            Node::Leaf(_) => true,
            Node::Parent(branch) => {
                &&& branch.envelope == envelope_of(branch.children)
                &&& forall|i: int|
                    0 <= i < branch.children.len() ==> (#[trigger] branch.children[i]).is_tight()
            },
        }
    }

    /// Whether each subtree at or below this node has children, and the envelope around them.
    pub open spec fn is_tidy(self) -> bool
        decreases self,
    {
        match self {
            Node::Leaf(_) => true,
            Node::Parent(branch) => {
                &&& branch.children.len() > 0
                &&& branch.envelope == envelope_of(branch.children)
                &&& forall|i: int|
                    0 <= i < branch.children.len() ==> (#[trigger] branch.children[i]).is_tidy()
            },
        }
    }
}

impl<T: RTreeObject> Branch<T> {
    /// Whether this node has the envelope around its children, and so has each subtree below it,
    /// which has children too.
    pub open spec fn is_tidy(self) -> bool {
        &&& self.envelope == envelope_of(self.children)
        &&& all_tidy(self.children)
    }

    /// Whether this node and each subtree below it has the envelope around its children.
    pub open spec fn is_tight(self) -> bool {
        &&& self.envelope == envelope_of(self.children)
        &&& all_tight(self.children)
    }
}

/// Whether all of `nodes` are tight.
pub open spec fn all_tight<T: RTreeObject>(nodes: Seq<Node<T>>) -> bool {
    forall|i: int| 0 <= i < nodes.len() ==> (#[trigger] nodes[i]).is_tight()
}

/// Whether each subtree at or below any of `nodes` has children.
pub open spec fn all_full<T: RTreeObject>(nodes: Seq<Node<T>>) -> bool {
    forall|i: int| 0 <= i < nodes.len() ==> (#[trigger] nodes[i]).is_full()
}

/// Whether all of `nodes` are tidy.
pub open spec fn all_tidy<T: RTreeObject>(nodes: Seq<Node<T>>) -> bool {
    forall|i: int| 0 <= i < nodes.len() ==> (#[trigger] nodes[i]).is_tidy()
}

proof fn lemma_tidy_is_tight<T: RTreeObject>(node: Node<T>)
    ensures
        node.is_tidy() == (node.is_tight() && node.is_full()),
    decreases node,
{
    if let Node::Parent(branch) = node {
        assert forall|i: int| 0 <= i < branch.children.len() implies (
        #[trigger] branch.children[i]).is_tidy() == (branch.children[i].is_tight()
            && branch.children[i].is_full()) by {
            lemma_tidy_is_tight(branch.children[i]);
        }
    }
}

/// A tree is tidy if and only if each node has the envelope around its children and no subtree is
/// empty.
pub proof fn law_tidy_is_tight_without_empty_subtrees<T: RTreeObject>(root: Branch<T>)
    ensures
        root.is_tidy() == (root.is_tight() && all_full(root.children)),
{
    assert forall|i: int| 0 <= i < root.children.len() implies (
    #[trigger] root.children[i]).is_tidy() == (root.children[i].is_tight()
        && root.children[i].is_full()) by {
        lemma_tidy_is_tight(root.children[i]);
    }
}

/// The envelope around nodes depends on nothing but their envelopes.
pub proof fn lemma_envelope_same<T: RTreeObject>(nodes: Seq<Node<T>>, i: int, node: Node<T>)
    requires
        0 <= i < nodes.len(),
        node.envelope() == nodes[i].envelope(),
    ensures
        envelope_of(nodes.update(i, node)) == envelope_of(nodes),
    decreases nodes.len(),
{
    let front = nodes.drop_last();
    if i == nodes.len() - 1 {
        assert(nodes.update(i, node).drop_last() =~= front);
    } else {
        assert(nodes.update(i, node).drop_last() =~= front.update(i, node));
        lemma_envelope_same(front, i, node);
    }
}

proof fn lemma_envelope_update<T: RTreeObject>(nodes: Seq<Node<T>>, i: int, node: Node<T>)
    requires
        joins_in_any_order::<T::Envelope>(),
        0 <= i < nodes.len(),
    ensures
        envelope_of(nodes.update(i, node)).join(nodes[i].envelope()) == envelope_of(nodes).join(
            node.envelope(),
        ),
    decreases nodes.len(),
{
    let after = nodes.update(i, node);
    let front = nodes.drop_last();
    if i == nodes.len() - 1 {
        assert(after.drop_last() =~= front);
    } else {
        assert(after.drop_last() =~= front.update(i, node));
        lemma_envelope_update(front, i, node);
    }
}

pub proof fn lemma_envelope_swap_remove<T: RTreeObject>(nodes: Seq<Node<T>>, i: int)
    requires
        joins_in_any_order::<T::Envelope>(),
        0 <= i < nodes.len(),
    ensures
        envelope_of(swap_removed(nodes, i)).join(nodes[i].envelope()) == envelope_of(nodes),
{
    let front = nodes.drop_last();
    if i == nodes.len() - 1 {
        assert(swap_removed(nodes, i) =~= front);
    } else {
        assert(swap_removed(nodes, i) =~= front.update(i, nodes.last()));
        lemma_envelope_update(front, i, nodes.last());
    }
}

} // verus!
