//! What holds of the objects that a selection reaches.

use crate::drain_laws::{
    law_drain_yields_all_selected, law_finish_removes_only_what_was_yielded, selects_by, yields,
};
use crate::drain_steps::{advances, start, Frame, Step};
use crate::model::{envelope_of, leaves_of, lemma_leaf_at, Branch, Choice, Node};
use crate::object::{meets_more_when_merged, Envelope, RTreeObject};
use crate::selection::{SelectInEnvelopeFuncIntersecting, SelectionFunction};
use crate::traversal::drains;
use crate::visitor::BacktrackingDrainVisitor;
use crate::visitor_laws::{decides_by, is_kept, law_removes_all_that_is_chosen};
use vstd::multiset::Multiset;
use vstd::prelude::*;

verus! {

/// Whether a subtree may hold chosen objects if anything that is merged into its envelope may.
pub open spec fn grows<T: RTreeObject>(choice: Choice<T>) -> bool {
    &&& forall|object: T| (choice.objects)(object) ==> (choice.parents)(#[trigger] object.bounds())
    &&& forall|a: T::Envelope, b: T::Envelope|
        (choice.parents)(a) || (choice.parents)(b) ==> (choice.parents)(#[trigger] a.join(b))
}

impl<T: RTreeObject> Choice<T> {
    /// Whether each subtree at or below `node` that holds a chosen object is one that may.
    pub open spec fn covers(self, node: Node<T>) -> bool
        decreases node,
    {
        match node {
            Node::Leaf(_) => true,
            Node::Parent(branch) => {
                &&& forall|object: T| #[trigger]
                    branch.leaves().count(object) > 0 && (self.objects)(object) ==> (self.parents)(
                        branch.envelope,
                    )
                &&& forall|i: int|
                    0 <= i < branch.children.len() ==> self.covers(#[trigger] branch.children[i])
            },
        }
    }
}

/// Whether all of `nodes` are covered.
pub open spec fn covers_all<T: RTreeObject>(choice: Choice<T>, nodes: Seq<Node<T>>) -> bool {
    forall|i: int| 0 <= i < nodes.len() ==> choice.covers(#[trigger] nodes[i])
}

/// Whether the envelope of an object contains it, and what is in an envelope stays in what that is
/// merged into or with, where `contains` says which envelopes contain which objects.
pub open spec fn keeps_what_it_contains<T: RTreeObject>(
    contains: spec_fn(T::Envelope, T) -> bool,
) -> bool {
    &&& forall|object: T| contains(#[trigger] object.bounds(), object)
    &&& forall|a: T::Envelope, b: T::Envelope, object: T|
        contains(a, object) || contains(b, object) ==> #[trigger] contains(a.join(b), object)
}

/// Whether each envelope that contains a chosen object is one of a subtree that may hold one.
pub open spec fn accepts_what_contains<T: RTreeObject>(
    choice: Choice<T>,
    contains: spec_fn(T::Envelope, T) -> bool,
) -> bool {
    forall|envelope: T::Envelope, object: T| #[trigger]
        contains(envelope, object) && (choice.objects)(object) ==> (choice.parents)(envelope)
}

/// Whether the envelope of each subtree at or below `node` contains the objects below that.
pub open spec fn is_enclosed<T: RTreeObject>(
    contains: spec_fn(T::Envelope, T) -> bool,
    node: Node<T>,
) -> bool
    decreases node,
{
    match node {
        Node::Leaf(_) => true,
        Node::Parent(branch) => {
            &&& forall|object: T| #[trigger]
                branch.leaves().count(object) > 0 ==> contains(branch.envelope, object)
            &&& forall|i: int|
                0 <= i < branch.children.len() ==> is_enclosed(
                    contains,
                    #[trigger] branch.children[i],
                )
        },
    }
}

/// The choice of one object, with the subtrees whose envelope contains it.
pub open spec fn only<T: RTreeObject>(
    contains: spec_fn(T::Envelope, T) -> bool,
    object: T,
) -> Choice<T> {
    Choice {
        parents: |envelope: T::Envelope| contains(envelope, object),
        objects: |other: T| other == object,
    }
}

/// A tree whose envelopes contain the objects below them is covered, where each envelope that
/// contains a chosen object is accepted.
pub proof fn law_enclosed_tree_is_covered<T: RTreeObject>(
    choice: Choice<T>,
    contains: spec_fn(T::Envelope, T) -> bool,
    node: Node<T>,
)
    requires
        accepts_what_contains(choice, contains),
        is_enclosed(contains, node),
    ensures
        choice.covers(node),
    decreases node,
{
    if let Node::Parent(branch) = node {
        assert forall|i: int| 0 <= i < branch.children.len() implies choice.covers(
            #[trigger] branch.children[i],
        ) by {
            law_enclosed_tree_is_covered(choice, contains, branch.children[i]);
        }
    }
}

/// The envelopes contain the objects below them if and only if that holds of each object.
pub proof fn lemma_enclosed<T: RTreeObject>(
    contains: spec_fn(T::Envelope, T) -> bool,
    node: Node<T>,
)
    requires
        forall|object: T| (#[trigger] only(contains, object)).covers(node),
    ensures
        is_enclosed(contains, node),
    decreases node,
{
    if let Node::Parent(branch) = node {
        assert forall|i: int| 0 <= i < branch.children.len() implies is_enclosed(
            contains,
            #[trigger] branch.children[i],
        ) by {
            let child = branch.children[i];
            lemma_enclosed(contains, child);
        }
        assert forall|object: T| #[trigger] branch.leaves().count(object) > 0 implies contains(
            branch.envelope,
            object,
        ) by {
            assert(only(contains, object).covers(node));
        }
    }
}

/// What is reached is chosen, and in the tree.
pub proof fn law_reached_objects_are_chosen<T: RTreeObject>(choice: Choice<T>, node: Node<T>)
    ensures
        choice.among(node).subset_of(node.leaves().filter(choice.objects)),
    decreases node, 0nat,
{
    if let Node::Parent(branch) = node {
        lemma_reached(choice, branch.children);
    }
}

proof fn lemma_reached<T: RTreeObject>(choice: Choice<T>, nodes: Seq<Node<T>>)
    ensures
        choice.among_all(nodes).subset_of(leaves_of(nodes).filter(choice.objects)),
    decreases nodes, nodes.len(),
{
    if nodes.len() > 0 {
        lemma_reached(choice, nodes.drop_last());
        law_reached_objects_are_chosen(choice, nodes.last());
    }
}

proof fn lemma_envelope_grows<T: RTreeObject>(choice: Choice<T>, nodes: Seq<Node<T>>, i: int)
    requires
        grows(choice),
        0 <= i < nodes.len(),
        (choice.parents)(nodes[i].envelope()),
    ensures
        (choice.parents)(envelope_of(nodes)),
    decreases nodes.len(),
{
    if i < nodes.len() - 1 {
        lemma_envelope_grows(choice, nodes.drop_last(), i);
    }
}

/// The envelope around nodes that hold a chosen object is one of a subtree that may.
pub proof fn lemma_envelope_covers<T: RTreeObject>(
    choice: Choice<T>,
    nodes: Seq<Node<T>>,
    object: T,
)
    requires
        grows(choice),
        covers_all(choice, nodes),
        leaves_of(nodes).count(object) > 0,
        (choice.objects)(object),
    ensures
        (choice.parents)(envelope_of(nodes)),
{
    let i = lemma_leaf_at(nodes, object);
    if let Node::Parent(branch) = nodes[i] {
        assert(branch.leaves().count(object) > 0);
    }
    lemma_envelope_grows(choice, nodes, i);
}

proof fn lemma_tight_covers<T: RTreeObject>(choice: Choice<T>, node: Node<T>)
    requires
        grows(choice),
        node.is_tight(),
    ensures
        choice.covers(node),
    decreases node,
{
    if let Node::Parent(branch) = node {
        assert forall|i: int| 0 <= i < branch.children.len() implies choice.covers(
            #[trigger] branch.children[i],
        ) by {
            lemma_tight_covers(choice, branch.children[i]);
        }
        assert forall|object: T| #[trigger]
            branch.leaves().count(object) > 0 && (choice.objects)(object) implies (choice.parents)(
            branch.envelope,
        ) by {
            lemma_envelope_covers(choice, branch.children, object);
        }
    }
}

/// A tree in which each node has the envelope around its children is covered, where a subtree may
/// hold chosen objects if anything that is merged into its envelope may.
pub proof fn law_tight_tree_is_covered<T: RTreeObject>(choice: Choice<T>, root: Branch<T>)
    requires
        grows(choice),
        root.is_tight(),
    ensures
        choice.covers(Node::Parent(root)),
{
    lemma_tight_covers(choice, Node::Parent(root));
}

proof fn lemma_reaches_all<T: RTreeObject>(choice: Choice<T>, nodes: Seq<Node<T>>)
    requires
        covers_all(choice, nodes),
    ensures
        choice.among_all(nodes) == leaves_of(nodes).filter(choice.objects),
    decreases nodes, nodes.len(),
{
    if nodes.len() > 0 {
        lemma_reaches_all(choice, nodes.drop_last());
        lemma_reaches_node(choice, nodes.last());
    }
}

proof fn lemma_reaches_node<T: RTreeObject>(choice: Choice<T>, node: Node<T>)
    requires
        choice.covers(node),
    ensures
        choice.among(node) == node.leaves().filter(choice.objects),
    decreases node, 0nat,
{
    if let Node::Parent(branch) = node {
        lemma_reaches_all(choice, branch.children);
        if !(choice.parents)(branch.envelope) {
            assert(branch.leaves().filter(choice.objects) =~= Multiset::empty());
        }
    }
}

/// All chosen objects are reached in a tree that is covered.
pub proof fn law_all_chosen_objects_are_reached<T: RTreeObject>(
    choice: Choice<T>,
    root: Branch<T>,
)
    requires
        choice.covers(Node::Parent(root)),
    ensures
        choice.among(Node::Parent(root)) == root.leaves().filter(choice.objects),
{
    lemma_reaches_node(choice, Node::Parent(root));
}

/// The objects whose envelope meets `region`.
pub open spec fn meeting<T: RTreeObject>(region: T::Envelope) -> Choice<T> {
    Choice {
        parents: |envelope: T::Envelope| region.meets(envelope),
        objects: |object: T| object.bounds().meets(region),
    }
}

/// A selection of what meets an envelope selects by that, and a tree in which each node has the
/// envelope around its children is covered.
pub proof fn law_selection_in_envelope<T: RTreeObject>(
    function: SelectInEnvelopeFuncIntersecting<T>,
    root: Branch<T>,
)
    ensures
        selects_by(function, meeting(function.region())),
        meets_more_when_merged::<T::Envelope>() ==> grows(meeting::<T>(function.region())),
        meets_more_when_merged::<T::Envelope>() && root.is_tight() ==> meeting(
            function.region(),
        ).covers(Node::Parent(root)),
{
    let choice = meeting::<T>(function.region());
    if meets_more_when_merged::<T::Envelope>() && root.is_tight() {
        law_tight_tree_is_covered(choice, root);
    }
}

/// A drain of a covered tree to the end yields all chosen objects and nothing else, and leaves no
/// chosen object behind.
pub proof fn law_drain_takes_all_chosen<T: RTreeObject, R: SelectionFunction<T>>(
    choice: Choice<T>,
    function: R,
    root: Branch<T>,
    objects: Seq<T>,
    then: Seq<Frame<T>>,
    after: Branch<T>,
    removed: nat,
)
    requires
        choice.covers(Node::Parent(root)),
        selects_by(function, choice),
        yields(function, start(root), objects, then),
        advances(function, then, Step::Finish(after, removed)),
    ensures
        objects.to_multiset() == root.leaves().filter(choice.objects),
        after.leaves().filter(choice.objects) == Multiset::<T>::empty(),
{
    law_all_chosen_objects_are_reached(choice, root);
    law_drain_yields_all_selected(choice, function, root, objects, then, after, removed);
    law_finish_removes_only_what_was_yielded(function, root, objects, then, after, removed);
    lemma_none_left(choice, root.leaves(), after.leaves());
}

/// The same of a visitor that decides by the choice.
pub proof fn law_visit_takes_all_chosen<T: RTreeObject, V: BacktrackingDrainVisitor<T>>(
    holds: spec_fn(V) -> bool,
    choice: Choice<T>,
    before: Branch<T>,
    visitor: V,
    removed: nat,
    after: Branch<T>,
    left: V,
)
    requires
        choice.covers(Node::Parent(before)),
        is_kept::<T, V>(holds),
        decides_by(holds, choice),
        holds(visitor),
        drains(before, visitor, removed, after, left),
    ensures
        removed == before.leaves().filter(choice.objects).len(),
        after.leaves().add(before.leaves().filter(choice.objects)) == before.leaves(),
        after.leaves().filter(choice.objects) == Multiset::<T>::empty(),
{
    law_all_chosen_objects_are_reached(choice, before);
    law_removes_all_that_is_chosen(holds, choice, before, visitor, removed, after, left);
    lemma_none_left(choice, before.leaves(), after.leaves());
}

proof fn lemma_none_left<T: RTreeObject>(
    choice: Choice<T>,
    before: Multiset<T>,
    after: Multiset<T>,
)
    requires
        after.add(before.filter(choice.objects)) == before,
    ensures
        after.filter(choice.objects) == Multiset::<T>::empty(),
{
    let chosen = before.filter(choice.objects);
    assert forall|object: T| after.filter(choice.objects).count(object) == 0 by {
        assert(before.count(object) == after.count(object) + chosen.count(object));
    }
}

} // verus!
