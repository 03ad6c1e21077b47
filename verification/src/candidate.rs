//! Candidates: nodes paired with the key by which a priority container
//! orders them.
//!
//! A candidate is itself a subproblem, so a search can run on candidates in
//! place of nodes. Its key is fixed when the candidate is made, and ranking
//! a candidate costs no more than reading it.

use crate::order::NodeOrder;
use crate::subproblem::{Score, Subproblem, SubproblemResolution};
use vstd::prelude::*;
use vstd::std_specs::iter::IteratorSpec;

verus! {

/// A node together with a key that defines an order on such nodes.
pub trait OrderedCandidate: Subproblem {
    /// The type of the node inside.
    type Node: Subproblem;

    /// The node inside.
    spec fn inner(&self) -> Self::Node;

    /// The key by which candidates are ordered: the greater key goes first.
    spec fn key_value(&self) -> i64;

    /// Makes a candidate of the root of a tree.
    fn new(root: Self::Node) -> (c: Self)
        ensures
            c.inner() == root,
    ;

    /// Looks at the node inside.
    fn node(&self) -> (n: &Self::Node)
        ensures
            *n == self.inner(),
    ;

    /// Gives up the candidate for the node inside.
    fn into_node(self) -> (n: Self::Node)
        ensures
            n == self.inner(),
    ;

    /// The candidate's key.
    fn key(&self) -> (k: i64)
        ensures
            k == self.key_value(),
    ;
}

/// The order of candidates by their keys.
pub struct KeyOrder;

impl<C: OrderedCandidate> NodeOrder<C> for KeyOrder {
    open spec fn rank_value(&self, n: &C) -> i64 {
        n.key_value()
    }

    fn rank(&self, n: &C) -> (r: i64) {
        n.key()
    }
}

/// A candidate whose key is the bound that its node had when the candidate
/// was made. Two candidates with equal bounds are equal in the order,
/// whatever their nodes.
pub struct BoundOrderedCandidate<Node> {
    node: Node,
    bound: Score,
}

impl<Node: Subproblem> BoundOrderedCandidate<Node> {
    /// The node inside.
    pub closed spec fn held(&self) -> Node {
        self.node
    }

    /// The bound that the node had when the candidate was made.
    pub closed spec fn held_bound(&self) -> Score {
        self.bound
    }

    /// The candidate that holds `node` under `bound`.
    pub closed spec fn wrap(node: Node, bound: Score) -> Self {
        BoundOrderedCandidate { node, bound }
    }

    /// A candidate holds the node and the bound it was made of.
    pub proof fn wrap_law(node: Node, bound: Score)
        ensures
            Self::wrap(node, bound).held() == node,
            Self::wrap(node, bound).held_bound() == bound,
    {
    }
}

impl<Node: Subproblem> Subproblem for BoundOrderedCandidate<Node> {
    type Children = std::vec::IntoIter<BoundOrderedCandidate<Node>>;

    open spec fn bound_value(&self) -> Score {
        self.held().bound_value()
    }

    open spec fn is_leaf(&self) -> bool {
        self.held().is_leaf()
    }

    open spec fn objective(&self) -> Score {
        self.held().objective()
    }

    open spec fn solution(&self) -> Self {
        Self::wrap(self.held().solution(), self.held_bound())
    }

    open spec fn children(&self) -> Seq<Self> {
        self.held().children().map_values(|n: Node| Self::wrap(n, n.bound_value()))
    }

    open spec fn height(&self) -> nat {
        self.held().height()
    }

    proof fn children_are_lower(&self) {
        self.held().children_are_lower();
        assert forall|i: int| 0 <= i < self.children().len() implies (
        #[trigger] self.children()[i]).height() < self.height() by {
            Self::wrap_law(self.held().children()[i], self.held().children()[i].bound_value());
        }
    }

    /// Evaluates the node inside. A score is passed on; subproblems are made
    /// candidates, each under its own bound.
    fn branch_or_evaluate(&mut self) -> (r: SubproblemResolution<Self::Children, Score>) {
        match self.node.branch_or_evaluate() {
            SubproblemResolution::Solved(score) => SubproblemResolution::Solved(score),
            SubproblemResolution::Branched(subproblems) => {
                let mut subproblems = subproblems;
                let mut wrapped: Vec<Self> = Vec::new();
                let ghost all = subproblems.remaining();
                loop
                    invariant
                        subproblems.obeys_prophetic_iter_laws(),
                        subproblems.decrease() is Some,
                        wrapped@.len() + subproblems.remaining().len() == all.len(),
                        forall|i: int|
                            0 <= i < wrapped@.len() ==> wrapped@[i] == Self::wrap(
                                all[i],
                                all[i].bound_value(),
                            ),
                        forall|i: int|
                            0 <= i < subproblems.remaining().len() ==> subproblems.remaining()[i]
                                == all[wrapped@.len() + i],
                    ensures
                        wrapped@ =~= all.map_values(|n: Node| Self::wrap(n, n.bound_value())),
                    decreases subproblems.decrease()->0,
                {
                    match subproblems.next() {
                        Some(node) => {
                            wrapped.push(Self::new(node));
                        },
                        None => {
                            break ;
                        },
                    }
                }
                SubproblemResolution::Branched(wrapped.into_iter())
            },
        }
    }

    fn bound(&self) -> (b: Score) {
        self.node.bound()
    }
}

impl<Node: Subproblem> OrderedCandidate for BoundOrderedCandidate<Node> {
    type Node = Node;

    open spec fn inner(&self) -> Node {
        self.held()
    }

    open spec fn key_value(&self) -> i64 {
        self.held_bound()
    }

    fn new(root: Node) -> (c: Self)
        ensures
            c == Self::wrap(root, root.bound_value()),
            c.held_bound() == root.bound_value(),
    {
        BoundOrderedCandidate { bound: root.bound(), node: root }
    }

    fn node(&self) -> (n: &Node) {
        &self.node
    }

    fn into_node(self) -> (n: Node) {
        self.node
    }

    fn key(&self) -> (k: i64) {
        self.bound
    }
}

/// A candidate that is ordered by its depth in the tree: the root has depth 0
/// and a subproblem lies one deeper than the node it came from, so the deeper
/// candidate goes first. Two candidates of equal depth are equal in the
/// order, whatever their nodes.
///
/// Candidates compare as their depths do, over the whole range of depths.
/// The key is the depth moved down by 2^63, which keeps that order and fits
/// a key. The depth itself stops growing at the greatest value that it can
/// hold; only from there on a subproblem is no deeper than its parent.
pub struct DepthOrderedCandidate<Node> {
    node: Node,
    depth: u64,
}

/// The depth one below `depth`.
pub open spec fn one_deeper(depth: u64) -> u64 {
    if depth < u64::MAX {
        (depth + 1) as u64
    } else {
        depth
    }
}

/// The key that stands for `depth`: the depth moved down by 2^63, so that
/// depth 0 has the least key and the greatest depth the greatest.
pub open spec fn depth_key(depth: u64) -> i64 {
    (depth - 0x8000_0000_0000_0000) as i64
}

/// Keys are ordered as the depths they stand for, and no two depths share a
/// key.
pub proof fn depth_key_keeps_order(a: u64, b: u64)
    ensures
        a < b <==> depth_key(a) < depth_key(b),
        a == b <==> depth_key(a) == depth_key(b),
{
}

impl<Node: Subproblem> DepthOrderedCandidate<Node> {
    /// The node inside.
    pub closed spec fn held(&self) -> Node {
        self.node
    }

    /// The depth at which the node lies.
    pub closed spec fn held_depth(&self) -> u64 {
        self.depth
    }

    /// The candidate that holds `node` at `depth`.
    pub closed spec fn wrap(node: Node, depth: u64) -> Self {
        DepthOrderedCandidate { node, depth }
    }

    /// A candidate holds the node and the depth it was made of.
    pub proof fn wrap_law(node: Node, depth: u64)
        ensures
            Self::wrap(node, depth).held() == node,
            Self::wrap(node, depth).held_depth() == depth,
    {
    }

    /// A candidate for a node that lies at `depth`.
    pub fn at_depth(node: Node, depth: u64) -> (c: Self)
        ensures
            c == Self::wrap(node, depth),
            c.held() == node,
            c.held_depth() == depth,
    {
        DepthOrderedCandidate { node, depth }
    }

    /// The depth at which the node lies.
    pub fn depth(&self) -> (d: u64)
        ensures
            d == self.held_depth(),
    {
        self.depth
    }

    /// Every subproblem of a candidate lies one deeper than the candidate.
    pub proof fn children_lie_deeper(&self, i: int)
        requires
            0 <= i < self.children().len(),
        ensures
            self.children()[i].held_depth() == one_deeper(self.held_depth()),
            self.children()[i].held() == self.held().children()[i],
    {
        Self::wrap_law(self.held().children()[i], one_deeper(self.held_depth()));
    }
}

impl<Node: Subproblem> Subproblem for DepthOrderedCandidate<Node> {
    type Children = std::vec::IntoIter<DepthOrderedCandidate<Node>>;

    open spec fn bound_value(&self) -> Score {
        self.held().bound_value()
    }

    open spec fn is_leaf(&self) -> bool {
        self.held().is_leaf()
    }

    open spec fn objective(&self) -> Score {
        self.held().objective()
    }

    open spec fn solution(&self) -> Self {
        Self::wrap(self.held().solution(), self.held_depth())
    }

    open spec fn children(&self) -> Seq<Self> {
        self.held().children().map_values(
            |n: Node| Self::wrap(n, one_deeper(self.held_depth())),
        )
    }

    open spec fn height(&self) -> nat {
        self.held().height()
    }

    proof fn children_are_lower(&self) {
        self.held().children_are_lower();
        assert forall|i: int| 0 <= i < self.children().len() implies (
        #[trigger] self.children()[i]).height() < self.height() by {
            Self::wrap_law(self.held().children()[i], one_deeper(self.held_depth()));
        }
    }

    /// Evaluates the node inside. A score is passed on; subproblems are made
    /// candidates that lie one deeper than this one.
    fn branch_or_evaluate(&mut self) -> (r: SubproblemResolution<Self::Children, Score>) {
        let depth: u64 = self.depth;
        match self.node.branch_or_evaluate() {
            SubproblemResolution::Solved(score) => SubproblemResolution::Solved(score),
            SubproblemResolution::Branched(subproblems) => {
                let mut subproblems = subproblems;
                let mut wrapped: Vec<Self> = Vec::new();
                let ghost all = subproblems.remaining();
                loop
                    invariant
                        subproblems.obeys_prophetic_iter_laws(),
                        subproblems.decrease() is Some,
                        wrapped@.len() + subproblems.remaining().len() == all.len(),
                        forall|i: int|
                            0 <= i < wrapped@.len() ==> wrapped@[i] == Self::wrap(
                                all[i],
                                one_deeper(depth),
                            ),
                        forall|i: int|
                            0 <= i < subproblems.remaining().len() ==> subproblems.remaining()[i]
                                == all[wrapped@.len() + i],
                    ensures
                        wrapped@ =~= all.map_values(|n: Node| Self::wrap(n, one_deeper(depth))),
                    decreases subproblems.decrease()->0,
                {
                    match subproblems.next() {
                        Some(subnode) => {
                            wrapped.push(
                                DepthOrderedCandidate {
                                    node: subnode,
                                    depth: depth.saturating_add(1),
                                },
                            );
                        },
                        None => {
                            break ;
                        },
                    }
                }
                SubproblemResolution::Branched(wrapped.into_iter())
            },
        }
    }

    fn bound(&self) -> (b: Score) {
        self.node.bound()
    }
}

impl<Node: Subproblem> OrderedCandidate for DepthOrderedCandidate<Node> {
    type Node = Node;

    open spec fn inner(&self) -> Node {
        self.held()
    }

    open spec fn key_value(&self) -> i64 {
        depth_key(self.held_depth())
    }

    fn new(root: Node) -> (c: Self)
        ensures
            c == Self::wrap(root, 0),
            c.held_depth() == 0,
    {
        DepthOrderedCandidate { node: root, depth: 0 }
    }

    fn node(&self) -> (n: &Node) {
        &self.node
    }

    fn into_node(self) -> (n: Node) {
        self.node
    }

    fn key(&self) -> (k: i64) {
        if self.depth >= 0x8000_0000_0000_0000 {
            (self.depth - 0x8000_0000_0000_0000) as i64
        } else {
            i64::MIN + (self.depth as i64)
        }
    }
}

} // verus!
