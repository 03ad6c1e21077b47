//! Comparing candidates: `==` and `<` go by what orders them alone, the
//! bound of a bound candidate and the depth of a depth candidate.

use crate::candidate::{
    depth_key_keeps_order, BoundOrderedCandidate, DepthOrderedCandidate, OrderedCandidate,
};
use crate::subproblem::Subproblem;
use std::cmp::Ordering;
use vstd::prelude::*;
use vstd::std_specs::cmp::{PartialEqSpec, PartialOrdSpec};

verus! {

/// How two keys compare.
pub open spec fn keys_compared(a: i64, b: i64) -> Ordering {
    if a < b {
        Ordering::Less
    } else if a == b {
        Ordering::Equal
    } else {
        Ordering::Greater
    }
}

/// Compares two keys.
pub fn compare_keys(a: i64, b: i64) -> (o: Ordering)
    ensures
        o == keys_compared(a, b),
{
    if a < b {
        Ordering::Less
    } else if a == b {
        Ordering::Equal
    } else {
        Ordering::Greater
    }
}

impl<Node: Subproblem> PartialEq for BoundOrderedCandidate<Node> {
    fn eq(&self, other: &Self) -> (r: bool) {
        self.key() == other.key()
    }
}

impl<Node: Subproblem> vstd::std_specs::cmp::PartialEqSpecImpl for BoundOrderedCandidate<Node> {
    open spec fn obeys_eq_spec() -> bool {
        true
    }

    open spec fn eq_spec(&self, other: &Self) -> bool {
        self.key_value() == other.key_value()
    }
}

impl<Node: Subproblem> PartialOrd for BoundOrderedCandidate<Node> {
    fn partial_cmp(&self, other: &Self) -> (r: Option<Ordering>) {
        Some(compare_keys(self.key(), other.key()))
    }
}

impl<Node: Subproblem> vstd::std_specs::cmp::PartialOrdSpecImpl for BoundOrderedCandidate<Node> {
    open spec fn obeys_partial_cmp_spec() -> bool {
        true
    }

    open spec fn partial_cmp_spec(&self, other: &Self) -> Option<Ordering> {
        Some(keys_compared(self.key_value(), other.key_value()))
    }
}

/// How two depths compare.
pub open spec fn depths_compared(a: u64, b: u64) -> Ordering {
    if a < b {
        Ordering::Less
    } else if a == b {
        Ordering::Equal
    } else {
        Ordering::Greater
    }
}

/// Compares two depths.
pub fn compare_depths(a: u64, b: u64) -> (o: Ordering)
    ensures
        o == depths_compared(a, b),
{
    if a < b {
        Ordering::Less
    } else if a == b {
        Ordering::Equal
    } else {
        Ordering::Greater
    }
}

impl<Node: Subproblem> PartialEq for DepthOrderedCandidate<Node> {
    fn eq(&self, other: &Self) -> (r: bool) {
        self.depth() == other.depth()
    }
}

impl<Node: Subproblem> vstd::std_specs::cmp::PartialEqSpecImpl for DepthOrderedCandidate<Node> {
    open spec fn obeys_eq_spec() -> bool {
        true
    }

    open spec fn eq_spec(&self, other: &Self) -> bool {
        self.held_depth() == other.held_depth()
    }
}

impl<Node: Subproblem> PartialOrd for DepthOrderedCandidate<Node> {
    fn partial_cmp(&self, other: &Self) -> (r: Option<Ordering>) {
        Some(compare_depths(self.depth(), other.depth()))
    }
}

impl<Node: Subproblem> vstd::std_specs::cmp::PartialOrdSpecImpl for DepthOrderedCandidate<Node> {
    open spec fn obeys_partial_cmp_spec() -> bool {
        true
    }

    open spec fn partial_cmp_spec(&self, other: &Self) -> Option<Ordering> {
        Some(depths_compared(self.held_depth(), other.held_depth()))
    }
}

/// The order of depth candidates is the order of their keys: comparing two
/// candidates and comparing their keys give the same.
pub proof fn depth_order_is_key_order<Node: Subproblem>(
    a: DepthOrderedCandidate<Node>,
    b: DepthOrderedCandidate<Node>,
)
    ensures
        a.partial_cmp_spec(&b) == Some(keys_compared(a.key_value(), b.key_value())),
        a.eq_spec(&b) <==> a.key_value() == b.key_value(),
{
    depth_key_keeps_order(a.held_depth(), b.held_depth());
    depth_key_keeps_order(b.held_depth(), a.held_depth());
}

/// A subproblem of a candidate is above the candidate in the order, and
/// equal to the other subproblems, for every depth but the greatest.
pub proof fn subproblem_goes_first<Node: Subproblem>(
    parent: DepthOrderedCandidate<Node>,
    i: int,
    j: int,
)
    requires
        0 <= i < parent.children().len(),
        0 <= j < parent.children().len(),
    ensures
        parent.held_depth() < u64::MAX ==> parent.children()[i].partial_cmp_spec(&parent) == Some(
            Ordering::Greater,
        ),
        parent.children()[i].partial_cmp_spec(&parent.children()[j]) == Some(Ordering::Equal),
        parent.children()[i].eq_spec(&parent.children()[j]),
{
    parent.children_lie_deeper(i);
    parent.children_lie_deeper(j);
}

} // verus!
