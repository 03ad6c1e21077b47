//! Containers of pending subproblems that know about the incumbent.
//!
//! A container decides in which order the nodes of the search tree are
//! visited, and may pass over nodes that cannot beat the incumbent, when
//! they are handed in as well as when they are handed out.

use crate::subproblem::{dominated, total_size, tree_size, Score, Subproblem};
use std::collections::VecDeque;
use vstd::prelude::*;

verus! {

/// The incumbent's score as a plain value.
pub open spec fn score_value(score: Option<&Score>) -> Option<Score> {
    match score {
        Some(s) => Some(*s),
        None => None,
    }
}

/// A store of the nodes that are still to be visited.
///
/// What a container does is fixed by a model of its state and by three
/// functions on that model: what a push leaves behind, which node the next
/// pop hands out, and what that pop leaves behind. The executable methods
/// follow those functions exactly, so a search over a container is a
/// function of the container's first state.
///
/// Every container keeps to two rules, stated by `push_law` and `pop_law`: it
/// never hands out a node that it does not hold, and it never holds a node
/// that was not pushed. A container is `exhaustive` if moreover it lets go
/// only of nodes that the incumbent dominates; the search over such a
/// container misses nothing.
pub trait BnbAwareContainer<S: Subproblem> {
    /// The mathematical state of the container.
    type Model;

    /// The invariant of the container's representation.
    spec fn well_formed(&self) -> bool;

    /// The state that this container is in.
    spec fn model(&self) -> Self::Model;

    /// A measure of the work that is still ahead. A pop takes at least the
    /// size of the popped node's tree off it, and a push adds at most the
    /// size of the pushed node's tree, so every search ends. In the
    /// containers of this library it is the sizes of the trees below the
    /// nodes held, added up.
    spec fn weight(m: Self::Model) -> nat;

    /// Whether `n` is among the nodes held.
    spec fn holds(m: Self::Model, n: S) -> bool;

    /// Whether the container, from this state on, lets go only of nodes that
    /// the incumbent dominates.
    spec fn exhaustive(m: Self::Model) -> bool;

    /// The state after `item` was pushed under the incumbent's score.
    spec fn after_push(m: Self::Model, item: S, score: Option<Score>) -> Self::Model;

    /// The node that a pop under the incumbent's score hands out.
    spec fn next(m: Self::Model, score: Option<Score>) -> Option<S>;

    /// The state after a pop under the incumbent's score.
    spec fn after_pop(m: Self::Model, score: Option<Score>) -> Self::Model;

    /// A push adds at most the item, and an exhaustive container keeps
    /// everything else and leaves the item out only if it is dominated.
    proof fn push_law(m: Self::Model, item: S, score: Option<Score>)
        ensures
            Self::weight(Self::after_push(m, item, score)) <= Self::weight(m) + tree_size(item),
            forall|n: S| #[trigger]
                Self::holds(Self::after_push(m, item, score), n) ==> Self::holds(m, n) || n
                    == item,
            Self::exhaustive(m) ==> {
                &&& Self::exhaustive(Self::after_push(m, item, score))
                &&& Self::holds(Self::after_push(m, item, score), item) || dominated(item, score)
                &&& forall|n: S| #[trigger]
                    Self::holds(m, n) ==> Self::holds(Self::after_push(m, item, score), n)
            },
    ;

    /// A pop hands out a node that was held and keeps nothing that was not,
    /// and an exhaustive container lets go of nothing else but dominated
    /// nodes.
    proof fn pop_law(m: Self::Model, score: Option<Score>)
        ensures
            Self::next(m, score) matches Some(n) ==> Self::holds(m, n) && Self::weight(
                Self::after_pop(m, score),
            ) + tree_size(n) <= Self::weight(m),
            forall|n: S| #[trigger]
                Self::holds(Self::after_pop(m, score), n) ==> Self::holds(m, n),
            Self::exhaustive(m) ==> {
                &&& Self::exhaustive(Self::after_pop(m, score))
                &&& forall|n: S| #[trigger]
                    Self::holds(m, n) ==> {
                        ||| Self::next(m, score) == Some(n)
                        ||| dominated(n, score)
                        ||| Self::next(m, score) is Some && Self::holds(
                            Self::after_pop(m, score),
                            n,
                        )
                    }
            },
    ;

    /// Adds `item`. `score` is the incumbent's score, if there is an
    /// incumbent; the container may leave out an item that it dominates.
    fn push_with_incumbent(&mut self, item: S, score: Option<&Score>)
        requires
            old(self).well_formed(),
        ensures
            final(self).well_formed(),
            final(self).model() == Self::after_push(old(self).model(), item, score_value(score)),
    ;

    /// Takes the next node out. `score` is the incumbent's score, if there is
    /// an incumbent; the container may drop nodes that it dominates on the
    /// way. `None` ends the search.
    fn pop_with_incumbent(&mut self, score: Option<&Score>) -> (r: Option<S>)
        requires
            old(self).well_formed(),
        ensures
            final(self).well_formed(),
            r == Self::next(old(self).model(), score_value(score)),
            final(self).model() == Self::after_pop(old(self).model(), score_value(score)),
    ;
}

/// Whether `item` may still beat the incumbent: there is none yet, or the
/// item's bound exceeds its score.
pub fn may_improve<S: Subproblem>(item: &S, score: Option<&Score>) -> (b: bool)
    ensures
        b == !dominated(*item, score_value(score)),
{
    match score {
        None => true,
        Some(s) => *s < item.bound(),
    }
}

/// The node that a scan from the back of `m` stops at: the last one that the
/// incumbent does not dominate.
pub open spec fn last_undominated<S: Subproblem>(m: Seq<S>, score: Option<Score>) -> Option<S>
    decreases m.len(),
{
    if m.len() == 0 {
        None
    } else if !dominated(m.last(), score) {
        Some(m.last())
    } else {
        last_undominated(m.drop_last(), score)
    }
}

/// What a scan from the back of `m` leaves: the nodes in front of the one it
/// stops at.
pub open spec fn before_last_undominated<S: Subproblem>(m: Seq<S>, score: Option<Score>) -> Seq<S>
    decreases m.len(),
{
    if m.len() == 0 {
        m
    } else if !dominated(m.last(), score) {
        m.drop_last()
    } else {
        before_last_undominated(m.drop_last(), score)
    }
}

pub proof fn total_size_push<S: Subproblem>(m: Seq<S>, item: S)
    ensures
        total_size(m.push(item)) == total_size(m) + tree_size(item),
    decreases m.len(),
{
    if m.len() == 0 {
        assert(m.push(item).drop_first() =~= m);
    } else {
        total_size_push(m.drop_first(), item);
        assert(m.push(item).drop_first() =~= m.drop_first().push(item));
    }
}

proof fn back_scan_law<S: Subproblem>(m: Seq<S>, score: Option<Score>)
    ensures
        last_undominated(m, score) matches Some(n) ==> m.contains(n) && total_size(
            before_last_undominated(m, score),
        ) + tree_size(n) <= total_size(m),
        total_size(before_last_undominated(m, score)) <= total_size(m),
        forall|n: S| #[trigger]
            before_last_undominated(m, score).contains(n) ==> m.contains(n),
        forall|n: S| #[trigger]
            m.contains(n) ==> {
                ||| last_undominated(m, score) == Some(n)
                ||| dominated(n, score)
                ||| last_undominated(m, score) is Some && before_last_undominated(
                    m,
                    score,
                ).contains(n)
            },
    decreases m.len(),
{
    if m.len() > 0 {
        let front = m.drop_last();
        assert(m =~= front.push(m.last()));
        total_size_push(front, m.last());
        back_scan_law(front, score);
        assert(m.contains(m.last())) by {
            assert(m[m.len() - 1] == m.last());
        }
        assert forall|n: S| front.contains(n) implies m.contains(n) by {
            let i = choose|i: int| 0 <= i < front.len() && front[i] == n;
            assert(m[i] == n);
        }
        assert forall|n: S| #[trigger] m.contains(n) implies n == m.last() || front.contains(n) by {
            let i = choose|i: int| 0 <= i < m.len() && m[i] == n;
            if i < m.len() - 1 {
                assert(front[i] == n);
            }
        }
    }
}

/// A stack: the node pushed last is visited first, which walks the tree
/// depth first. Dominated nodes are left out on push and dropped on pop.
impl<S: Subproblem> BnbAwareContainer<S> for Vec<S> {
    type Model = Seq<S>;

    open spec fn well_formed(&self) -> bool {
        true
    }

    open spec fn model(&self) -> Seq<S> {
        self@
    }

    open spec fn weight(m: Seq<S>) -> nat {
        total_size(m)
    }

    open spec fn holds(m: Seq<S>, n: S) -> bool {
        m.contains(n)
    }

    open spec fn exhaustive(m: Seq<S>) -> bool {
        true
    }

    open spec fn after_push(m: Seq<S>, item: S, score: Option<Score>) -> Seq<S> {
        if dominated(item, score) {
            m
        } else {
            m.push(item)
        }
    }

    open spec fn next(m: Seq<S>, score: Option<Score>) -> Option<S> {
        last_undominated(m, score)
    }

    open spec fn after_pop(m: Seq<S>, score: Option<Score>) -> Seq<S> {
        before_last_undominated(m, score)
    }

    proof fn push_law(m: Seq<S>, item: S, score: Option<Score>) {
        total_size_push(m, item);
        let after = m.push(item);
        assert(after.contains(item)) by {
            assert(after[m.len() as int] == item);
        }
        assert forall|n: S| m.contains(n) implies after.contains(n) by {
            let i = choose|i: int| 0 <= i < m.len() && m[i] == n;
            assert(after[i] == n);
        }
        assert forall|n: S| after.contains(n) implies m.contains(n) || n == item by {
            let i = choose|i: int| 0 <= i < after.len() && after[i] == n;
            if i < m.len() {
                assert(m[i] == n);
            }
        }
    }

    proof fn pop_law(m: Seq<S>, score: Option<Score>) {
        back_scan_law(m, score);
    }

    fn push_with_incumbent(&mut self, item: S, score: Option<&Score>) {
        if may_improve(&item, score) {
            self.push(item)
        }
    }

    fn pop_with_incumbent(&mut self, score: Option<&Score>) -> (r: Option<S>) {
        loop
            invariant
                last_undominated(self@, score_value(score)) == last_undominated(
                    old(self)@,
                    score_value(score),
                ),
                before_last_undominated(self@, score_value(score)) == before_last_undominated(
                    old(self)@,
                    score_value(score),
                ),
            decreases self@.len(),
        {
            match self.pop() {
                Some(item) => {
                    if may_improve(&item, score) {
                        return Some(item);
                    }
                },
                None => {
                    return None;
                },
            }
        }
    }
}

/// A queue: every node is pushed at the front and taken from the back, so the
/// node that has waited longest is visited first, which walks the tree
/// breadth first. Dominated nodes are left out on push and dropped on pop.
impl<S: Subproblem> BnbAwareContainer<S> for VecDeque<S> {
    type Model = Seq<S>;

    open spec fn well_formed(&self) -> bool {
        true
    }

    open spec fn model(&self) -> Seq<S> {
        self@
    }

    open spec fn weight(m: Seq<S>) -> nat {
        total_size(m)
    }

    open spec fn holds(m: Seq<S>, n: S) -> bool {
        m.contains(n)
    }

    open spec fn exhaustive(m: Seq<S>) -> bool {
        true
    }

    open spec fn after_push(m: Seq<S>, item: S, score: Option<Score>) -> Seq<S> {
        if dominated(item, score) {
            m
        } else {
            seq![item] + m
        }
    }

    open spec fn next(m: Seq<S>, score: Option<Score>) -> Option<S> {
        last_undominated(m, score)
    }

    open spec fn after_pop(m: Seq<S>, score: Option<Score>) -> Seq<S> {
        before_last_undominated(m, score)
    }

    proof fn push_law(m: Seq<S>, item: S, score: Option<Score>) {
        let after = seq![item] + m;
        assert(after.drop_first() =~= m);
        assert(after.contains(item)) by {
            assert(after[0] == item);
        }
        assert forall|n: S| m.contains(n) implies after.contains(n) by {
            let i = choose|i: int| 0 <= i < m.len() && m[i] == n;
            assert(after[i + 1] == n);
        }
        assert forall|n: S| after.contains(n) implies m.contains(n) || n == item by {
            let i = choose|i: int| 0 <= i < after.len() && after[i] == n;
            if i > 0 {
                assert(m[i - 1] == n);
            }
        }
    }

    proof fn pop_law(m: Seq<S>, score: Option<Score>) {
        back_scan_law(m, score);
    }

    fn push_with_incumbent(&mut self, item: S, score: Option<&Score>) {
        if may_improve(&item, score) {
            self.push_front(item)
        }
    }

    fn pop_with_incumbent(&mut self, score: Option<&Score>) -> (r: Option<S>) {
        loop
            invariant
                last_undominated(self@, score_value(score)) == last_undominated(
                    old(self)@,
                    score_value(score),
                ),
                before_last_undominated(self@, score_value(score)) == before_last_undominated(
                    old(self)@,
                    score_value(score),
                ),
            decreases self@.len(),
        {
            match self.pop_back() {
                Some(item) => {
                    if may_improve(&item, score) {
                        return Some(item);
                    }
                },
                None => {
                    return None;
                },
            }
        }
    }
}

} // verus!
