//! A search tree that is written out in full: every node carries its bound
//! and the list of its subproblems.

use crate::laws::{admissible, keeps_promise, leaf_below, search_finds_optimum};
use crate::order::NodeOrder;
use crate::subproblem::{Score, Subproblem, SubproblemResolution};
use crate::traverse::{search, TraverseMethod};
use vstd::prelude::*;
use vstd::std_specs::iter::IteratorSpec;

verus! {

/// A node of an explicit tree. A node without subproblems is a leaf, and its
/// bound is its score.
#[derive(Debug, PartialEq, Eq)]
pub struct GraphNode {
    pub bound: Score,
    pub next: Vec<GraphNode>,
}

/// The number of branchings on the longest way down from `n`.
pub open spec fn depth_below(n: GraphNode) -> nat
    decreases n,
{
    if n.next@.len() == 0 {
        0
    } else {
        1 + deepest(n.next@)
    }
}

/// The greatest depth below any of `nodes`.
pub open spec fn deepest(nodes: Seq<GraphNode>) -> nat
    decreases nodes,
{
    if nodes.len() == 0 {
        0
    } else {
        let before = deepest(nodes.drop_last());
        let last = depth_below(nodes.last());
        if before < last {
            last
        } else {
            before
        }
    }
}

proof fn deepest_is_deepest(nodes: Seq<GraphNode>, i: int)
    requires
        0 <= i < nodes.len(),
    ensures
        depth_below(nodes[i]) <= deepest(nodes),
    decreases nodes.len(),
{
    if i < nodes.len() - 1 {
        deepest_is_deepest(nodes.drop_last(), i);
    }
}

impl Subproblem for GraphNode {
    type Children = std::vec::IntoIter<GraphNode>;

    open spec fn bound_value(&self) -> Score {
        self.bound
    }

    open spec fn is_leaf(&self) -> bool {
        self.next@.len() == 0
    }

    open spec fn objective(&self) -> Score {
        self.bound
    }

    open spec fn solution(&self) -> GraphNode {
        *self
    }

    open spec fn children(&self) -> Seq<GraphNode> {
        self.next@
    }

    open spec fn height(&self) -> nat {
        depth_below(*self)
    }

    proof fn children_are_lower(&self) {
        assert forall|i: int| 0 <= i < self.children().len() implies (
        #[trigger] self.children()[i]).height() < self.height() by {
            deepest_is_deepest(self.next@, i);
        }
    }

    /// A leaf gives its bound as its score and stays as it is. An inner node
    /// hands out its subproblems, in their order. Either way the node keeps
    /// its bound.
    fn branch_or_evaluate(&mut self) -> (r: SubproblemResolution<Self::Children, Score>)
        ensures
            final(self).bound == old(self).bound,
            r is Solved ==> *final(self) == *old(self),
    {
        if self.next.is_empty() {
            SubproblemResolution::Solved(self.bound)
        } else {
            let mut subproblems: Vec<GraphNode> = Vec::new();
            std::mem::swap(&mut self.next, &mut subproblems);
            SubproblemResolution::Branched(subproblems.into_iter())
        }
    }

    fn bound(&self) -> (b: Score) {
        self.bound
    }
}

/// Whether `n` is a leaf with the score `bound`.
pub open spec fn is_leaf_of(n: GraphNode, bound: Score) -> bool {
    n.bound == bound && n.next@.len() == 0
}

/// Whether `n` has the bound `bound` and two subproblems.
pub open spec fn is_fork_of(n: GraphNode, bound: Score) -> bool {
    n.bound == bound && n.next@.len() == 2
}

/// The shape of the sample tree: six leaves with the scores 0 to 5 under
/// five inner nodes.
pub open spec fn is_sample(root: GraphNode) -> bool {
    let low = root.next@[0];
    let high = root.next@[1];
    &&& is_fork_of(root, 8)
    &&& is_fork_of(low, 5)
    &&& is_leaf_of(low.next@[0], 1)
    &&& is_fork_of(low.next@[1], 4)
    &&& is_leaf_of(low.next@[1].next@[0], 2)
    &&& is_leaf_of(low.next@[1].next@[1], 3)
    &&& is_fork_of(high, 7)
    &&& is_leaf_of(high.next@[0], 0)
    &&& is_fork_of(high.next@[1], 6)
    &&& is_leaf_of(high.next@[1].next@[0], 4)
    &&& is_leaf_of(high.next@[1].next@[1], 5)
}

/// A leaf with the score `bound`.
pub fn leaf(bound: Score) -> (n: GraphNode)
    ensures
        is_leaf_of(n, bound),
{
    GraphNode { bound, next: Vec::new() }
}

/// A node with the bound `bound` above `first` and `second`.
pub fn fork(bound: Score, first: GraphNode, second: GraphNode) -> (n: GraphNode)
    ensures
        is_fork_of(n, bound),
        n.next@[0] == first,
        n.next@[1] == second,
{
    let mut next: Vec<GraphNode> = Vec::new();
    next.push(first);
    next.push(second);
    GraphNode { bound, next }
}

/// The sample tree. Its best leaf scores 5, and every bound in it is an
/// upper bound.
pub fn graph() -> (root: GraphNode)
    ensures
        is_sample(root),
{
    let leaf0 = leaf(0);
    let leaf1 = leaf(1);
    let leaf2 = leaf(2);
    let leaf3 = leaf(3);
    let leaf4 = leaf(4);
    let leaf5 = leaf(5);
    let parent23 = fork(4, leaf2, leaf3);
    let parent1p23 = fork(5, leaf1, parent23);
    let parent45 = fork(6, leaf4, leaf5);
    let parent0p45 = fork(7, leaf0, parent45);
    let root = fork(8, parent1p23, parent0p45);
    root
}

/// Whether no node in the tree below `n` has a greater bound than the node
/// it came from.
pub open spec fn bounds_descend(n: GraphNode) -> bool
    decreases n,
{
    forall|i: int|
        0 <= i < n.next@.len() ==> (#[trigger] n.next@[i]).bound <= n.bound && bounds_descend(
            n.next@[i],
        )
}

/// Where bounds descend, no leaf scores more than a node above it.
pub proof fn descending_bounds_hold(n: GraphNode, l: GraphNode)
    requires
        bounds_descend(n),
        leaf_below(n, l),
    ensures
        l.bound <= n.bound,
    decreases n.height(),
{
    if !n.is_leaf() {
        n.children_are_lower();
        let i = choose|i: int|
            0 <= i < n.children().len() && leaf_below(#[trigger] n.children()[i], l);
        descending_bounds_hold(n.next@[i], l);
    }
}

/// Where bounds descend, they are upper bounds.
pub proof fn descending_bounds_are_admissible(n: GraphNode)
    requires
        bounds_descend(n),
    ensures
        admissible(n),
    decreases n.height(),
{
    assert forall|l: GraphNode| #[trigger] leaf_below(n, l) implies l.objective()
        <= n.bound_value() by {
        descending_bounds_hold(n, l);
    }
    if !n.is_leaf() {
        n.children_are_lower();
        assert forall|i: int| 0 <= i < n.children().len() implies admissible(
            #[trigger] n.children()[i],
        ) by {
            descending_bounds_are_admissible(n.next@[i]);
        }
    }
}

/// A leaf below a node with two subproblems lies below one of the two.
proof fn leaf_below_fork(n: GraphNode, l: GraphNode)
    requires
        n.next@.len() == 2,
        leaf_below(n, l),
    ensures
        leaf_below(n.next@[0], l) || leaf_below(n.next@[1], l),
{
    let i = choose|i: int| 0 <= i < n.children().len() && leaf_below(#[trigger] n.children()[i], l);
}

/// The leaves of the sample tree score at most 5.
proof fn sample_leaves(root: GraphNode, l: GraphNode)
    requires
        is_sample(root),
        leaf_below(root, l),
    ensures
        l.bound <= 5,
        l.next@.len() == 0,
{
    let low = root.next@[0];
    let high = root.next@[1];
    leaf_below_fork(root, l);
    if leaf_below(low, l) {
        leaf_below_fork(low, l);
        if leaf_below(low.next@[1], l) {
            leaf_below_fork(low.next@[1], l);
        }
    } else {
        leaf_below_fork(high, l);
        if leaf_below(high.next@[1], l) {
            leaf_below_fork(high.next@[1], l);
        }
    }
}

/// Every search of the sample tree ends with the leaf that scores 5.
pub proof fn sample_is_solved<Cmp: NodeOrder<GraphNode>>(
    root: GraphNode,
    method: TraverseMethod<Cmp>,
)
    requires
        is_sample(root),
        keeps_promise::<GraphNode, Cmp>(method),
    ensures
        search(root, method) matches Some(found) && found.0 == 5 && is_leaf_of(found.1, 5),
{
    let low = root.next@[0];
    let high = root.next@[1];
    let best = high.next@[1].next@[1];
    assert(bounds_descend(low.next@[0]));
    assert(bounds_descend(low.next@[1].next@[0]));
    assert(bounds_descend(low.next@[1].next@[1]));
    assert(bounds_descend(low.next@[1]));
    assert(bounds_descend(low));
    assert(bounds_descend(high.next@[0]));
    assert(bounds_descend(best));
    assert(bounds_descend(high.next@[1].next@[0]));
    assert(bounds_descend(high.next@[1]));
    assert(bounds_descend(high));
    descending_bounds_are_admissible(root);
    search_finds_optimum(root, method);
    assert(leaf_below(best, best));
    assert(leaf_below(high.next@[1], best)) by {
        assert(high.next@[1].children()[1] == best);
    }
    assert(leaf_below(high, best)) by {
        assert(high.children()[1] == high.next@[1]);
    }
    assert(leaf_below(root, best)) by {
        assert(root.children()[1] == high);
    }
    let found = search(root, method)->0;
    let l = choose|l: GraphNode| #[trigger]
        leaf_below(root, l) && l.objective() == found.0 && l.solution() == found.1;
    sample_leaves(root, l);
}

} // verus!
