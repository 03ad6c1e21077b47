//! Orders in which a priority container hands out its nodes.

use crate::subproblem::Subproblem;
use vstd::prelude::*;

verus! {

/// A total order on nodes, given by a rank: a node of greater rank is visited
/// earlier.
pub trait NodeOrder<Node> {
    /// The rank that `rank` reports for `n`.
    spec fn rank_value(&self, n: &Node) -> i64;

    /// The rank of `n`.
    fn rank(&self, n: &Node) -> (r: i64)
        ensures
            r == self.rank_value(n),
    ;
}

/// The order of best-first search: a node ranks as high as its bound.
pub struct BoundOrder;

impl<S: Subproblem> NodeOrder<S> for BoundOrder {
    open spec fn rank_value(&self, n: &S) -> i64 {
        n.bound_value()
    }

    fn rank(&self, n: &S) -> (r: i64) {
        n.bound()
    }
}

/// The reverse of an order: what the order inside ranks lowest goes first.
/// The reverse of the order by bound is worst-first search.
pub struct Reversed<R>(pub R);

impl<S, R: NodeOrder<S>> NodeOrder<S> for Reversed<R> {
    /// The ranks are mirrored, so that a greater rank inside gives a
    /// smaller one: `-1 - r` is a rank for every rank `r`.
    open spec fn rank_value(&self, n: &S) -> i64 {
        (-1 - self.0.rank_value(n)) as i64
    }

    fn rank(&self, n: &S) -> (r: i64) {
        -1 - self.0.rank(n)
    }
}

/// An order behind a pointer ranks as the order itself does.
impl<S> NodeOrder<S> for Box<dyn NodeOrder<S>> {
    open spec fn rank_value(&self, n: &S) -> i64 {
        (**self).rank_value(n)
    }

    fn rank(&self, n: &S) -> (r: i64) {
        (**self).rank(n)
    }
}

/// Whether `order` is at least as fine as the order by bound: a node that
/// ranks no higher than another has no greater bound. In such an order,
/// once the node of highest rank is dominated, all are.
pub open spec fn refines_bound<S: Subproblem, R: NodeOrder<S>>(order: R) -> bool {
    forall|a: S, b: S| #[trigger]
        order.rank_value(&a) <= #[trigger] order.rank_value(&b) ==> a.bound_value()
            <= b.bound_value()
}

} // verus!
