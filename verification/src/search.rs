//! The search loop, and the mathematical function that it computes.

use crate::bnb_aware_containers::{score_value, BnbAwareContainer};
use crate::laws::{admissible, is_best_held, run_finds_best};
use crate::subproblem::{total_size, tree_size_of_inner, Score, Subproblem, SubproblemResolution};
use vstd::prelude::*;
use vstd::std_specs::iter::IteratorSpec;

verus! {

/// The score of the incumbent, if there is one.
pub open spec fn score_of<S>(best: Option<(Score, S)>) -> Option<Score> {
    match best {
        Some(b) => Some(b.0),
        None => None,
    }
}

/// The incumbent itself, if there is one.
pub open spec fn node_of<S>(best: Option<(Score, S)>) -> Option<S> {
    match best {
        Some(b) => Some(b.1),
        None => None,
    }
}

/// The incumbent after a leaf was solved: the leaf replaces it only if the
/// leaf's score is strictly greater, so of two equal scores the one found
/// first stays.
pub open spec fn improved<S>(best: Option<(Score, S)>, score: Score, node: S) -> Option<
    (Score, S),
> {
    match best {
        None => Some((score, node)),
        Some(b) => if b.0 < score {
            Some((score, node))
        } else {
            best
        },
    }
}

/// The state of a container after `kids` were pushed one after the other,
/// all under the same incumbent's score.
pub open spec fn push_all<S: Subproblem, C: BnbAwareContainer<S>>(
    m: C::Model,
    kids: Seq<S>,
    score: Option<Score>,
) -> C::Model
    decreases kids.len(),
{
    if kids.len() == 0 {
        m
    } else {
        push_all::<S, C>(C::after_push(m, kids[0], score), kids.drop_first(), score)
    }
}

/// The incumbent that a search ends with, when it starts from a container in
/// state `m` with the incumbent `best`.
///
/// The search pops a node. A leaf may replace the incumbent; the
/// subproblems of an inner node are pushed. It ends when the container hands
/// out nothing.
pub open spec fn run<S: Subproblem, C: BnbAwareContainer<S>>(
    m: C::Model,
    best: Option<(Score, S)>,
) -> Option<(Score, S)>
    decreases C::weight(m),
    via run_decreases::<S, C>
{
    match C::next(m, score_of(best)) {
        None => best,
        Some(n) => {
            let rest = C::after_pop(m, score_of(best));
            if n.is_leaf() {
                run::<S, C>(rest, improved(best, n.objective(), n.solution()))
            } else {
                run::<S, C>(push_all::<S, C>(rest, n.children(), score_of(best)), best)
            }
        },
    }
}

#[via_fn]
proof fn run_decreases<S: Subproblem, C: BnbAwareContainer<S>>(
    m: C::Model,
    best: Option<(Score, S)>,
) {
    step_shrinks::<S, C>(m, score_of(best));
}

/// Pushing nodes adds at most the sizes of their trees to the weight.
pub proof fn push_all_weight<S: Subproblem, C: BnbAwareContainer<S>>(
    m: C::Model,
    kids: Seq<S>,
    score: Option<Score>,
)
    ensures
        C::weight(push_all::<S, C>(m, kids, score)) <= C::weight(m) + total_size(kids),
    decreases kids.len(),
{
    if kids.len() > 0 {
        C::push_law(m, kids[0], score);
        push_all_weight::<S, C>(C::after_push(m, kids[0], score), kids.drop_first(), score);
    }
}

/// Every step of the search leaves fewer tree nodes ahead.
pub proof fn step_shrinks<S: Subproblem, C: BnbAwareContainer<S>>(
    m: C::Model,
    score: Option<Score>,
)
    ensures
        C::next(m, score) matches Some(n) ==> {
            let rest = C::after_pop(m, score);
            &&& C::weight(rest) < C::weight(m)
            &&& !n.is_leaf() ==> C::weight(push_all::<S, C>(rest, n.children(), score))
                < C::weight(m)
        },
{
    C::pop_law(m, score);
    if let Some(n) = C::next(m, score) {
        if !n.is_leaf() {
            tree_size_of_inner(n);
            push_all_weight::<S, C>(C::after_pop(m, score), n.children(), score);
        }
    }
}

/// The incumbent's score, borrowed for the container.
fn score_behind<S>(best: &Option<(Score, S)>) -> (score: Option<&Score>)
    ensures
        score_value(score) == score_of(*best),
{
    match best {
        Some(b) => Some(&b.0),
        None => None,
    }
}

/// Searches the trees below the nodes that `container` holds and returns the
/// best leaf, or `None` if no leaf was reached.
///
/// Until the container hands out nothing, a node is popped and evaluated. The
/// subproblems of an inner node go back into the container; a leaf becomes
/// the incumbent if its score is strictly greater than the incumbent's. The
/// container fixes the order of the walk and what is pruned, so the result is
/// the function `run` of the container's first state.
///
/// If the container is exhaustive and the bounds in the trees are upper
/// bounds, the result is a best leaf of those trees.
pub fn solve_with_container<Node, Container>(container: Container) -> (r: Option<Node>) where
    Node: Subproblem,
    Container: BnbAwareContainer<Node>,

    requires
        container.well_formed(),
    ensures
        r == node_of(run::<Node, Container>(container.model(), None)),
        Container::exhaustive(container.model()) && (forall|n: Node| #[trigger]
            Container::holds(container.model(), n) ==> admissible(n)) ==> is_best_held::<
            Node,
            Container,
        >(container.model(), r),
{
    proof {
        if Container::exhaustive(container.model()) && (forall|n: Node| #[trigger]
            Container::holds(container.model(), n) ==> admissible(n)) {
            run_finds_best::<Node, Container>(container.model());
        }
    }
    let mut container = container;
    let mut best: Option<(Score, Node)> = None;
    let ghost start = container.model();
    loop
        invariant_except_break
            run::<Node, Container>(container.model(), best) == run::<Node, Container>(start, None),
        invariant
            container.well_formed(),
        ensures
            best == run::<Node, Container>(start, None),
        decreases Container::weight(container.model()),
    {
        let ghost before = container.model();
        let ghost score = score_of(best);
        proof {
            step_shrinks::<Node, Container>(before, score);
        }
        match container.pop_with_incumbent(score_behind(&best)) {
            None => {
                break ;
            },
            Some(mut candidate) => {
                let ghost popped = candidate;
                match candidate.branch_or_evaluate() {
                    SubproblemResolution::Branched(subproblems) => {
                        let mut subproblems = subproblems;
                        let ghost target = push_all::<Node, Container>(
                            container.model(),
                            popped.children(),
                            score,
                        );
                        loop
                            invariant
                                container.well_formed(),
                                score == score_of(best),
                                subproblems.obeys_prophetic_iter_laws(),
                                subproblems.decrease() is Some,
                                push_all::<Node, Container>(
                                    container.model(),
                                    subproblems.remaining(),
                                    score,
                                ) == target,
                            ensures
                                container.well_formed(),
                                container.model() == target,
                            decreases subproblems.decrease()->0,
                        {
                            match subproblems.next() {
                                Some(node) => {
                                    container.push_with_incumbent(node, score_behind(&best));
                                },
                                None => {
                                    break ;
                                },
                            }
                        }
                    },
                    SubproblemResolution::Solved(candidate_score) => {
                        best = match best {
                            None => Some((candidate_score, candidate)),
                            Some((incumbent_score, incumbent)) => {
                                if incumbent_score < candidate_score {
                                    Some((candidate_score, candidate))
                                } else {
                                    Some((incumbent_score, incumbent))
                                }
                            },
                        };
                    },
                }
            },
        }
    }
    match best {
        Some((_, incumbent)) => Some(incumbent),
        None => None,
    }
}

} // verus!
