//! The standard orders in which the search tree can be walked.

use crate::bnb_aware_containers::BnbAwareContainer;
use crate::laws::{
    admissible, immediate_solve, is_best_leaf, keeps_promise, optimum_is_best_leaf,
    search_finds_optimum,
};
use crate::order::{BoundOrder, NodeOrder};
use crate::priority::{BinaryHeapExt, PriorityModel};
use crate::search::{node_of, run, solve_with_container};
use crate::subproblem::{Score, Subproblem};
use std::collections::VecDeque;
use vstd::prelude::*;

verus! {

/// The order in which `solve` walks the tree. `Cmp` is the type of a custom
/// order; `solve` takes one behind a pointer, so that a method which names
/// no custom order needs no type for it.
pub enum TraverseMethod<Cmp> {
    /// Depth first: the search descends into a subtree until it reaches a
    /// leaf or finds that the subtree cannot beat the incumbent. Of the
    /// subproblems of one node, the one produced last is visited first.
    ///
    /// Needs the least memory of all.
    DepthFirst,
    /// Breadth first: the nodes are visited layer by layer, in the order in
    /// which they were produced.
    BreadthFirst,
    /// Best first: the node with the greatest bound is visited next, and the
    /// search ends as soon as that bound does not exceed the incumbent's
    /// score. Among nodes with equal bounds the priority container decides,
    /// by the slots in which it keeps them.
    Greedy,
    /// Like best first, by an order of the caller's choosing: the node that
    /// `cmp` ranks highest is visited next.
    ///
    /// Set `cmp_superceeds_bound` only if `cmp` is at least as fine as the
    /// order by bound, so that a node which ranks no higher than another has
    /// no greater bound. The search then ends as soon as the node of highest
    /// rank is dominated. Without it, dominated nodes are passed over one by
    /// one and the search ends when none is left.
    Custom { cmp: Cmp, cmp_superceeds_bound: bool },
}

/// The state of a priority container that holds `initial` and nothing else.
pub open spec fn seeded<Node, R>(initial: Node, order: R, stop_early: bool) -> PriorityModel<
    Node,
    R,
> {
    PriorityModel { slots: seq![Some(initial)], free: Seq::empty(), order, stop_early }
}

/// The score and the node that the search from `initial` by `method` ends
/// with.
pub open spec fn search<Node: Subproblem, Cmp: NodeOrder<Node>>(
    initial: Node,
    method: TraverseMethod<Cmp>,
) -> Option<
    (Score, Node),
> {
    match method {
        TraverseMethod::DepthFirst => run::<Node, Vec<Node>>(seq![initial], None),
        TraverseMethod::BreadthFirst => run::<Node, VecDeque<Node>>(seq![initial], None),
        TraverseMethod::Greedy => run::<Node, BinaryHeapExt<Node, BoundOrder>>(
            seeded(initial, BoundOrder, true),
            None,
        ),
        TraverseMethod::Custom { cmp, cmp_superceeds_bound } => run::<
            Node,
            BinaryHeapExt<Node, Cmp>,
        >(seeded(initial, cmp, cmp_superceeds_bound), None),
    }
}

/// Searches the tree below `initial` in the order that `method` names and
/// returns the best leaf, or `None` if the tree has no leaf that the search
/// reaches.
///
/// The result is a function of the tree and the method: the same search
/// gives the same leaf, also among leaves of equal score. A root that is a
/// leaf is the result. And if the bounds in the tree are upper bounds, and a
/// custom order keeps what its flag promises, the result is a best leaf of
/// the tree.
pub fn solve<Node: Subproblem>(
    initial: Node,
    method: TraverseMethod<Box<dyn NodeOrder<Node>>>,
) -> (r: Option<Node>)
    ensures
        r == node_of(search(initial, method)),
        initial.is_leaf() ==> r == Some(initial.solution()),
        admissible(initial) && keeps_promise::<Node, Box<dyn NodeOrder<Node>>>(method)
            ==> is_best_leaf(initial, r),
{
    solve_by(initial, method)
}

/// `solve` for a custom order of any type, which need not be behind a
/// pointer.
pub fn solve_by<Node: Subproblem, Cmp: NodeOrder<Node>>(
    initial: Node,
    method: TraverseMethod<Cmp>,
) -> (r: Option<Node>)
    ensures
        r == node_of(search(initial, method)),
        initial.is_leaf() ==> r == Some(initial.solution()),
        admissible(initial) && keeps_promise::<Node, Cmp>(method) ==> is_best_leaf(initial, r),
{
    proof {
        if initial.is_leaf() {
            immediate_solve(initial, method);
        }
        if admissible(initial) && keeps_promise::<Node, Cmp>(method) {
            search_finds_optimum(initial, method);
            optimum_is_best_leaf(initial, search(initial, method));
        }
    }
    match method {
        TraverseMethod::Greedy => {
            let mut pqueue = BinaryHeapExt::new(BoundOrder, true);
            pqueue.push_with_incumbent(initial, None);
            solve_with_container(pqueue)
        },
        TraverseMethod::Custom { cmp, cmp_superceeds_bound: stop_early } => {
            let mut pqueue = BinaryHeapExt::new(cmp, stop_early);
            pqueue.push_with_incumbent(initial, None);
            solve_with_container(pqueue)
        },
        TraverseMethod::BreadthFirst => {
            let mut queue: VecDeque<Node> = VecDeque::new();
            queue.push_front(initial);
            solve_with_container(queue)
        },
        TraverseMethod::DepthFirst => {
            let mut stack: Vec<Node> = Vec::new();
            stack.push(initial);
            solve_with_container(stack)
        },
    }
}

} // verus!
