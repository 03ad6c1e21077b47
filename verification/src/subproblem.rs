//! The interface between a problem and the search engine, and the search
//! tree that an implementation of it describes.

use vstd::prelude::*;
use vstd::std_specs::iter::IteratorSpec;

verus! {

/// The value of a bound or of the objective function. A greater score is a
/// better one.
pub type Score = i64;

/// A sequence of nodes, as the ghost functions of a node speak of it.
pub type Nodes<S> = Seq<S>;

/// A height in a tree, as the ghost functions of a node speak of it.
pub type Height = nat;

/// What evaluating a subproblem gives: either the subproblems it splits into,
/// or the score of the single solution it stands for.
pub enum SubproblemResolution<Children, Score> {
    /// The subproblems of an inner node, handed out one at a time and once
    /// only. An empty sequence discards the node.
    Branched(Children),
    /// The value of the objective function at a leaf.
    Solved(Score),
}

/// A node of the search tree.
///
/// The ghost functions describe the tree that the node is the root of; the
/// two executable methods are what the engine calls, and their contracts tie
/// them to that description.
///
/// An implementation that is not verified still has to name the ghost items.
/// Nothing ever calls them, so any body will do there; `Nodes` and `Height`
/// are the types they return.
pub trait Subproblem: Sized {
    /// The sequence in which `branch_or_evaluate` hands out subproblems.
    type Children: Iterator<Item = Self>;

    /// The bound that `bound` reports for this node.
    spec fn bound_value(&self) -> Score;

    /// Whether evaluating this node gives a score rather than subproblems.
    spec fn is_leaf(&self) -> bool;

    /// The score that a leaf resolves to.
    spec fn objective(&self) -> Score;

    /// The node as evaluation leaves it when it resolves to a score: the same
    /// subproblem, now a solution.
    spec fn solution(&self) -> Self;

    /// The subproblems of an inner node, in the order in which they are
    /// produced.
    spec fn children(&self) -> Seq<Self>;

    /// A bound on the number of branchings below this node. It makes the
    /// tree finite.
    spec fn height(&self) -> nat;

    /// Every subproblem lies strictly lower than the node it came from.
    proof fn children_are_lower(&self)
        requires
            !self.is_leaf(),
        ensures
            forall|i: int|
                0 <= i < self.children().len() ==> (#[trigger] self.children()[i]).height()
                    < self.height(),
    ;

    /// Evaluates the node.
    ///
    /// An inner node gives its subproblems; the engine drops the node
    /// afterwards, so the call may leave it in any state. A leaf gives its
    /// score and is left as its own solution.
    fn branch_or_evaluate(&mut self) -> (r: SubproblemResolution<Self::Children, Score>)
        ensures
            match r {
                SubproblemResolution::Branched(produced) => {
                    &&& !old(self).is_leaf()
                    &&& produced.obeys_prophetic_iter_laws()
                    &&& produced.decrease() is Some
                    &&& produced.remaining() == old(self).children()
                },
                SubproblemResolution::Solved(score) => {
                    &&& old(self).is_leaf()
                    &&& score == old(self).objective()
                    &&& *final(self) == old(self).solution()
                },
            },
    ;

    /// The bound of this node: a score that no leaf below it is to exceed.
    ///
    /// The engine takes the bound at its word and passes over a node whose
    /// bound does not exceed the incumbent's score. It finds the best leaf if
    /// the bounds are upper bounds in fact (`laws::admissible`); with a bound
    /// that is too low it may miss it.
    fn bound(&self) -> (b: Score)
        ensures
            b == self.bound_value(),
    ;
}

/// The number of nodes in the tree below `n`, `n` included.
pub open spec fn tree_size<S: Subproblem>(n: S) -> nat
    decreases n.height(), 1nat, 0nat,
{
    if n.is_leaf() {
        1
    } else {
        1 + forest_size(n, n.children().len())
    }
}

/// The number of nodes below the first `upto` subproblems of `n`.
pub open spec fn forest_size<S: Subproblem>(n: S, upto: nat) -> nat
    decreases n.height(), 0nat, upto,
    when !n.is_leaf() && upto <= n.children().len()
    via forest_size_decreases::<S>
{
    if upto == 0 {
        0
    } else {
        forest_size(n, (upto - 1) as nat) + tree_size(n.children()[upto - 1])
    }
}

#[via_fn]
proof fn forest_size_decreases<S: Subproblem>(n: S, upto: nat) {
    if upto != 0 {
        n.children_are_lower();
    }
}

/// The number of nodes below all of `nodes` together.
pub open spec fn total_size<S: Subproblem>(nodes: Seq<S>) -> nat
    decreases nodes.len(),
{
    if nodes.len() == 0 {
        0
    } else {
        tree_size(nodes[0]) + total_size(nodes.drop_first())
    }
}

/// Whether a node can be passed over under the incumbent's score: its bound
/// does not exceed that score.
pub open spec fn dominated<S: Subproblem>(n: S, score: Option<Score>) -> bool {
    score matches Some(s) && n.bound_value() <= s
}

/// An inner node is one larger than its subproblems together.
pub proof fn tree_size_of_inner<S: Subproblem>(n: S)
    requires
        !n.is_leaf(),
    ensures
        tree_size(n) == 1 + total_size(n.children()),
{
    forest_is_suffix_total(n, 0);
    assert(n.children().subrange(0, n.children().len() as int) =~= n.children());
}

proof fn forest_is_suffix_total<S: Subproblem>(n: S, from: nat)
    requires
        !n.is_leaf(),
        from <= n.children().len(),
    ensures
        forest_size(n, n.children().len()) == forest_size(n, from) + total_size(
            n.children().subrange(from as int, n.children().len() as int),
        ),
    decreases n.children().len() - from,
{
    let kids = n.children();
    let tail = kids.subrange(from as int, kids.len() as int);
    if from < kids.len() {
        forest_is_suffix_total(n, from + 1);
        assert(tail.drop_first() =~= kids.subrange(from as int + 1, kids.len() as int));
        assert(tail[0] == kids[from as int]);
    }
}

} // verus!
