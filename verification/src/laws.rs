//! What a search finds: the laws that hold of every container, and of the
//! standard orders.

use crate::bnb_aware_containers::BnbAwareContainer;
use crate::order::{refines_bound, BoundOrder, NodeOrder};
use crate::priority::{popped, top_slot, vacated, BinaryHeapExt, PriorityModel};
use crate::search::{improved, node_of, push_all, run, score_of, step_shrinks};
use crate::subproblem::{dominated, Score, Subproblem};
use crate::traverse::{search, seeded, TraverseMethod};
use std::collections::VecDeque;
use vstd::prelude::*;

verus! {

/// Whether `l` is a leaf of the tree below `n`.
pub open spec fn leaf_below<S: Subproblem>(n: S, l: S) -> bool
    decreases n.height(),
    via leaf_below_decreases::<S>
{
    if n.is_leaf() {
        l == n
    } else {
        exists|i: int| 0 <= i < n.children().len() && leaf_below(#[trigger] n.children()[i], l)
    }
}

#[via_fn]
proof fn leaf_below_decreases<S: Subproblem>(n: S, l: S) {
    if !n.is_leaf() {
        n.children_are_lower();
    }
}

/// Whether some leaf below `n` has the score `s` and leaves `node` as its
/// solution.
pub open spec fn attained<S: Subproblem>(n: S, s: Score, node: S) -> bool {
    exists|l: S| #[trigger] leaf_below(n, l) && l.objective() == s && l.solution() == node
}

/// Whether the tree below `n` has no leaf.
pub open spec fn barren<S: Subproblem>(n: S) -> bool {
    forall|l: S| !#[trigger] leaf_below(n, l)
}

/// Whether the score `s` settles the tree below `n`: every leaf of it either
/// scores at most `s` or lies below a node whose bound is at most `s`.
pub open spec fn settled<S: Subproblem>(n: S, s: Score) -> bool
    decreases n.height(),
    via settled_decreases::<S>
{
    n.bound_value() <= s || if n.is_leaf() {
        n.objective() <= s
    } else {
        forall|i: int| 0 <= i < n.children().len() ==> settled(#[trigger] n.children()[i], s)
    }
}

#[via_fn]
proof fn settled_decreases<S: Subproblem>(n: S, s: Score) {
    if !n.is_leaf() {
        n.children_are_lower();
    }
}

/// Whether the bounds in the tree below `n` are upper bounds: no leaf scores
/// more than the bound of any node that it lies below.
pub open spec fn admissible<S: Subproblem>(n: S) -> bool
    decreases n.height(),
    via admissible_decreases::<S>
{
    &&& forall|l: S| #[trigger] leaf_below(n, l) ==> l.objective() <= n.bound_value()
    &&& !n.is_leaf() ==> forall|i: int|
        0 <= i < n.children().len() ==> admissible(#[trigger] n.children()[i])
}

#[via_fn]
proof fn admissible_decreases<S: Subproblem>(n: S) {
    if !n.is_leaf() {
        n.children_are_lower();
    }
}

/// Under upper bounds, a score that settles a tree is at least the score of
/// each of its leaves.
pub proof fn settled_bounds_leaves<S: Subproblem>(n: S, s: Score, l: S)
    requires
        admissible(n),
        settled(n, s),
        leaf_below(n, l),
    ensures
        l.objective() <= s,
    decreases n.height(),
{
    if n.bound_value() > s && !n.is_leaf() {
        n.children_are_lower();
        let i = choose|i: int|
            0 <= i < n.children().len() && leaf_below(#[trigger] n.children()[i], l);
        settled_bounds_leaves(n.children()[i], s, l);
    }
}

/// What pushing the nodes `kids` does to what a container holds.
pub proof fn push_all_law<S: Subproblem, C: BnbAwareContainer<S>>(
    m: C::Model,
    kids: Seq<S>,
    score: Option<Score>,
)
    ensures
        forall|x: S| #[trigger]
            C::holds(push_all::<S, C>(m, kids, score), x) ==> C::holds(m, x) || kids.contains(x),
        C::exhaustive(m) ==> {
            &&& C::exhaustive(push_all::<S, C>(m, kids, score))
            &&& forall|x: S| #[trigger]
                C::holds(m, x) ==> C::holds(push_all::<S, C>(m, kids, score), x)
            &&& forall|j: int|
                0 <= j < kids.len() ==> C::holds(
                    push_all::<S, C>(m, kids, score),
                    #[trigger] kids[j],
                ) || dominated(kids[j], score)
        },
    decreases kids.len(),
{
    if kids.len() > 0 {
        let first = C::after_push(m, kids[0], score);
        let then = push_all::<S, C>(first, kids.drop_first(), score);
        C::push_law(m, kids[0], score);
        push_all_law::<S, C>(first, kids.drop_first(), score);
        assert forall|x: S| #[trigger] C::holds(then, x) implies C::holds(m, x) || kids.contains(
            x,
        ) by {
            if C::holds(first, x) {
                if !C::holds(m, x) {
                    assert(kids[0] == x);
                }
            } else {
                let j = choose|j: int|
                    0 <= j < kids.drop_first().len() && kids.drop_first()[j] == x;
                assert(kids[j + 1] == x);
            }
        }
        if C::exhaustive(m) {
            assert forall|j: int| 0 <= j < kids.len() implies C::holds(then, #[trigger] kids[j])
                || dominated(kids[j], score) by {
                if j > 0 {
                    assert(kids.drop_first()[j - 1] == kids[j]);
                }
            }
        }
    }
}

/// What a search ends with, whatever the container.
///
/// The incumbent never gets worse. The result is the incumbent that the
/// search began with, or the solution of a leaf below a node that the
/// container held. And if the container is exhaustive, the result settles
/// every tree that the container held.
pub proof fn run_law<S: Subproblem, C: BnbAwareContainer<S>>(m: C::Model, best: Option<(Score, S)>)
    ensures
        best matches Some(b) ==> run::<S, C>(m, best) matches Some(r) && b.0 <= r.0,
        run::<S, C>(m, best) == best || (run::<S, C>(m, best) matches Some(r) && exists|n: S|
            #[trigger] C::holds(m, n) && attained(n, r.0, r.1)),
        C::exhaustive(m) ==> forall|n: S| #[trigger]
            C::holds(m, n) ==> match run::<S, C>(m, best) {
                None => barren(n),
                Some(r) => settled(n, r.0),
            },
    decreases C::weight(m),
{
    let score = score_of(best);
    let result = run::<S, C>(m, best);
    C::pop_law(m, score);
    step_shrinks::<S, C>(m, score);
    match C::next(m, score) {
        None => {},
        Some(n) => {
            let rest = C::after_pop(m, score);
            if n.is_leaf() {
                let found = improved(best, n.objective(), n.solution());
                run_law::<S, C>(rest, found);
                let r = result->0;
                assert(leaf_below(n, n));
                if result != best {
                    if result == found {
                        assert(attained(n, r.0, r.1));
                    } else {
                        let x = choose|x: S| #[trigger] C::holds(rest, x) && attained(x, r.0, r.1);
                        assert(C::holds(m, x));
                    }
                }
            } else {
                let kids = n.children();
                let grown = push_all::<S, C>(rest, kids, score);
                push_all_law::<S, C>(rest, kids, score);
                run_law::<S, C>(grown, best);
                if result != best {
                    let r = result->0;
                    let x = choose|x: S| #[trigger] C::holds(grown, x) && attained(x, r.0, r.1);
                    if C::holds(rest, x) {
                        assert(C::holds(m, x));
                    } else {
                        let j = choose|j: int| 0 <= j < kids.len() && kids[j] == x;
                        let l = choose|l: S| #[trigger]
                            leaf_below(x, l) && l.objective() == r.0 && l.solution() == r.1;
                        assert(leaf_below(kids[j], l));
                        assert(leaf_below(n, l));
                        assert(attained(n, r.0, r.1));
                    }
                }
                if C::exhaustive(m) {
                    match result {
                        None => {
                            assert forall|l: S| !#[trigger] leaf_below(n, l) by {
                                if leaf_below(n, l) {
                                    let i = choose|i: int|
                                        0 <= i < kids.len() && leaf_below(#[trigger] kids[i], l);
                                    assert(C::holds(grown, kids[i]));
                                    assert(barren(kids[i]));
                                }
                            }
                        },
                        Some(r) => {
                            assert forall|i: int| 0 <= i < kids.len() implies settled(
                                #[trigger] kids[i],
                                r.0,
                            ) by {
                                if !C::holds(grown, kids[i]) {
                                    assert(dominated(kids[i], score));
                                }
                            }
                        },
                    }
                }
            }
        },
    }
}

/// Whether `found` is the optimum of the tree below `root`: nothing if the
/// tree has no leaf, and else the score and the solution of a leaf that no
/// other leaf outscores.
pub open spec fn is_optimum<S: Subproblem>(root: S, found: Option<(Score, S)>) -> bool {
    match found {
        None => barren(root),
        Some(r) => {
            &&& attained(root, r.0, r.1)
            &&& forall|l: S| #[trigger] leaf_below(root, l) ==> l.objective() <= r.0
        },
    }
}

/// Two optima of one tree have the same score.
pub proof fn optimum_score_is_unique<S: Subproblem>(
    root: S,
    first: Option<(Score, S)>,
    second: Option<(Score, S)>,
)
    requires
        is_optimum(root, first),
        is_optimum(root, second),
    ensures
        score_of(first) == score_of(second),
{
    if let Some(a) = first {
        let l = choose|l: S| #[trigger]
            leaf_below(root, l) && l.objective() == a.0 && l.solution() == a.1;
        assert(leaf_below(root, l));
    }
    if let Some(b) = second {
        let l = choose|l: S| #[trigger]
            leaf_below(root, l) && l.objective() == b.0 && l.solution() == b.1;
        assert(leaf_below(root, l));
    }
}

/// A search that starts with nothing but `root` in an exhaustive container
/// finds the optimum, if the bounds are upper bounds.
pub proof fn run_finds_optimum<S: Subproblem, C: BnbAwareContainer<S>>(m: C::Model, root: S)
    requires
        admissible(root),
        C::exhaustive(m),
        C::holds(m, root),
        forall|x: S| #[trigger] C::holds(m, x) ==> x == root,
    ensures
        is_optimum(root, run::<S, C>(m, None)),
{
    run_law::<S, C>(m, None);
    if let Some(r) = run::<S, C>(m, None) {
        assert forall|l: S| #[trigger] leaf_below(root, l) implies l.objective() <= r.0 by {
            settled_bounds_leaves(root, r.0, l);
        }
    }
}

/// Whether `found` is a best leaf of the trees below the nodes that a
/// container in state `m` holds: nothing if none of them has a leaf, and else
/// the solution of a leaf that no leaf of any of them outscores.
pub open spec fn is_best_held<S: Subproblem, C: BnbAwareContainer<S>>(
    m: C::Model,
    found: Option<S>,
) -> bool {
    match found {
        None => forall|n: S| #[trigger] C::holds(m, n) ==> barren(n),
        Some(node) => exists|n: S, l: S|
            {
                &&& C::holds(m, n)
                &&& #[trigger] leaf_below(n, l)
                &&& l.solution() == node
                &&& forall|other: S, rival: S|
                    C::holds(m, other) && #[trigger] leaf_below(other, rival)
                        ==> rival.objective() <= l.objective()
            },
    }
}

/// A search in an exhaustive container finds a best leaf of the trees that
/// the container holds, if the bounds in them are upper bounds.
pub proof fn run_finds_best<S: Subproblem, C: BnbAwareContainer<S>>(m: C::Model)
    requires
        C::exhaustive(m),
        forall|n: S| #[trigger] C::holds(m, n) ==> admissible(n),
    ensures
        is_best_held::<S, C>(m, node_of(run::<S, C>(m, None))),
{
    run_law::<S, C>(m, None);
    if let Some(r) = run::<S, C>(m, None) {
        let n = choose|n: S| #[trigger] C::holds(m, n) && attained(n, r.0, r.1);
        let l = choose|l: S| #[trigger]
            leaf_below(n, l) && l.objective() == r.0 && l.solution() == r.1;
        assert forall|other: S, rival: S|
            C::holds(m, other) && #[trigger] leaf_below(other, rival) implies rival.objective()
            <= l.objective() by {
            settled_bounds_leaves(other, r.0, rival);
        }
        assert(C::holds(m, n) && leaf_below(n, l) && l.solution() == r.1);
    }
}

/// Whether `found` is a best leaf of the tree below `root`: nothing if the
/// tree has no leaf, and else the solution of a leaf that no leaf of the tree
/// outscores.
pub open spec fn is_best_leaf<S: Subproblem>(root: S, found: Option<S>) -> bool {
    match found {
        None => barren(root),
        Some(node) => exists|l: S|
            {
                &&& #[trigger] leaf_below(root, l)
                &&& l.solution() == node
                &&& forall|rival: S| #[trigger]
                    leaf_below(root, rival) ==> rival.objective() <= l.objective()
            },
    }
}

/// The node of an optimum is a best leaf.
pub proof fn optimum_is_best_leaf<S: Subproblem>(root: S, found: Option<(Score, S)>)
    requires
        is_optimum(root, found),
    ensures
        is_best_leaf(root, node_of(found)),
{
    if let Some(r) = found {
        let l = choose|l: S| #[trigger]
            leaf_below(root, l) && l.objective() == r.0 && l.solution() == r.1;
        assert(leaf_below(root, l) && l.solution() == r.1);
    }
}

/// Whether `method` may end the search early: a custom order that is said to
/// be at least as fine as the order by bound is so.
pub open spec fn keeps_promise<Node: Subproblem, Cmp: NodeOrder<Node>>(
    method: TraverseMethod<Cmp>,
) -> bool {
    method matches TraverseMethod::Custom { cmp, cmp_superceeds_bound } ==> (cmp_superceeds_bound
        ==> refines_bound::<Node, Cmp>(cmp))
}

/// A priority container with one node holds that node and no other.
proof fn seeded_holds_root<Node: Subproblem, R: NodeOrder<Node>>(
    root: Node,
    order: R,
    stop_early: bool,
)
    ensures
        BinaryHeapExt::<Node, R>::holds(seeded(root, order, stop_early), root),
        forall|x: Node| #[trigger]
            BinaryHeapExt::<Node, R>::holds(seeded(root, order, stop_early), x) ==> x == root,
{
    let m = seeded(root, order, stop_early);
    assert(m.slots[0] == Some(root));
}

/// Every method finds the optimum: if the bounds are upper bounds, the
/// search returns a leaf of the greatest score, or nothing if the tree has
/// no leaf.
pub proof fn search_finds_optimum<Node: Subproblem, Cmp: NodeOrder<Node>>(
    root: Node,
    method: TraverseMethod<Cmp>,
)
    requires
        admissible(root),
        keeps_promise::<Node, Cmp>(method),
    ensures
        is_optimum(root, search(root, method)),
{
    match method {
        TraverseMethod::DepthFirst => {
            assert(seq![root][0] == root);
            run_finds_optimum::<Node, Vec<Node>>(seq![root], root);
        },
        TraverseMethod::BreadthFirst => {
            assert(seq![root][0] == root);
            run_finds_optimum::<Node, VecDeque<Node>>(seq![root], root);
        },
        TraverseMethod::Greedy => {
            seeded_holds_root(root, BoundOrder, true);
            run_finds_optimum::<Node, BinaryHeapExt<Node, BoundOrder>>(
                seeded(root, BoundOrder, true),
                root,
            );
        },
        TraverseMethod::Custom { cmp, cmp_superceeds_bound } => {
            seeded_holds_root(root, cmp, cmp_superceeds_bound);
            run_finds_optimum::<Node, BinaryHeapExt<Node, Cmp>>(
                seeded(root, cmp, cmp_superceeds_bound),
                root,
            );
        },
    }
}

/// All methods agree on the score: if the bounds are upper bounds, two
/// searches of one tree end with the same score, whatever their orders.
/// Only the leaf may differ, among leaves of that score.
pub proof fn methods_agree<Node: Subproblem, First: NodeOrder<Node>, Second: NodeOrder<Node>>(
    root: Node,
    first: TraverseMethod<First>,
    second: TraverseMethod<Second>,
)
    requires
        admissible(root),
        keeps_promise::<Node, First>(first),
        keeps_promise::<Node, Second>(second),
    ensures
        score_of(search(root, first)) == score_of(search(root, second)),
{
    search_finds_optimum(root, first);
    search_finds_optimum(root, second);
    optimum_score_is_unique(root, search(root, first), search(root, second));
}

/// A node that branches into nothing is discarded: the search goes on as if
/// the pop had taken it out and nothing else had happened.
pub proof fn empty_branch_is_discarded<S: Subproblem, C: BnbAwareContainer<S>>(
    m: C::Model,
    best: Option<(Score, S)>,
)
    requires
        C::next(m, score_of(best)) matches Some(n) && !n.is_leaf() && n.children().len() == 0,
    ensures
        run::<S, C>(m, best) == run::<S, C>(C::after_pop(m, score_of(best)), best),
{
}

/// A node that branches into nothing has no leaf below it.
pub proof fn empty_branch_is_barren<S: Subproblem>(n: S)
    requires
        !n.is_leaf(),
        n.children().len() == 0,
    ensures
        barren(n),
{
}

/// Best-first search stops early: with `stop_early`, once the node that is
/// first in the order is dominated, nothing more is visited and the search
/// ends with the incumbent it has.
pub proof fn early_stop_ends_search<S: Subproblem, R: NodeOrder<S>>(
    m: PriorityModel<S, R>,
    best: Option<(Score, S)>,
)
    requires
        m.stop_early,
        top_slot(m, m.slots.len()) matches Some(t) && dominated(m.slots[t]->0, score_of(best)),
    ensures
        BinaryHeapExt::<S, R>::next(m, score_of(best)) is None,
        run::<S, BinaryHeapExt<S, R>>(m, best) == best,
{
}

/// A search that pops a leaf first and nothing after it ends with that leaf.
proof fn run_of_single_leaf<S: Subproblem, C: BnbAwareContainer<S>>(m: C::Model, root: S)
    requires
        root.is_leaf(),
        C::next(m, None) == Some(root),
        C::next(C::after_pop(m, None), Some(root.objective())) is None,
    ensures
        run::<S, C>(m, None) == Some((root.objective(), root.solution())),
{
    let found = improved(None, root.objective(), root.solution());
    assert(score_of(found) == Some(root.objective()));
    assert(run::<S, C>(C::after_pop(m, None), found) == found);
}

/// A priority container with one node hands out that node and then nothing.
proof fn seeded_pops_root<Node: Subproblem, R: NodeOrder<Node>>(
    root: Node,
    order: R,
    stop_early: bool,
    score: Option<Score>,
)
    ensures
        popped(seeded(root, order, stop_early), None) == (
            Some(root),
            vacated(seeded(root, order, stop_early), 0),
        ),
        popped(vacated(seeded(root, order, stop_early), 0), score).0 is None,
{
    let m = seeded(root, order, stop_early);
    assert(top_slot(m, 0) is None);
    assert(top_slot(m, 1) == Some(0int));
    let rest = vacated(m, 0);
    assert(top_slot(rest, 0) is None);
    assert(top_slot(rest, 1) is None);
}

/// A root that is a leaf is the result: whatever the method, the search
/// returns the root's own solution with the root's score.
pub proof fn immediate_solve<Node: Subproblem, Cmp: NodeOrder<Node>>(
    root: Node,
    method: TraverseMethod<Cmp>,
)
    requires
        root.is_leaf(),
    ensures
        search(root, method) == Some((root.objective(), root.solution())),
{
    let after = Some(root.objective());
    match method {
        TraverseMethod::DepthFirst => {
            assert(seq![root].drop_last().len() == 0);
            run_of_single_leaf::<Node, Vec<Node>>(seq![root], root);
        },
        TraverseMethod::BreadthFirst => {
            assert(seq![root].drop_last().len() == 0);
            run_of_single_leaf::<Node, VecDeque<Node>>(seq![root], root);
        },
        TraverseMethod::Greedy => {
            seeded_pops_root(root, BoundOrder, true, after);
            run_of_single_leaf::<Node, BinaryHeapExt<Node, BoundOrder>>(
                seeded(root, BoundOrder, true),
                root,
            );
        },
        TraverseMethod::Custom { cmp, cmp_superceeds_bound } => {
            seeded_pops_root(root, cmp, cmp_superceeds_bound, after);
            run_of_single_leaf::<Node, BinaryHeapExt<Node, Cmp>>(
                seeded(root, cmp, cmp_superceeds_bound),
                root,
            );
        },
    }
}

/// A search that pops a node which branches into nothing, and nothing after
/// it, ends with nothing.
proof fn run_of_single_dead_end<S: Subproblem, C: BnbAwareContainer<S>>(m: C::Model, root: S)
    requires
        !root.is_leaf(),
        root.children().len() == 0,
        C::next(m, None) == Some(root),
        C::next(C::after_pop(m, None), None) is None,
    ensures
        run::<S, C>(m, None) is None,
{
    let rest = C::after_pop(m, None);
    assert(push_all::<S, C>(rest, root.children(), None) == rest);
    assert(run::<S, C>(rest, None) is None);
}

/// A root that branches into nothing gives nothing, whatever the method.
pub proof fn dead_end_root_gives_nothing<Node: Subproblem, Cmp: NodeOrder<Node>>(
    root: Node,
    method: TraverseMethod<Cmp>,
)
    requires
        !root.is_leaf(),
        root.children().len() == 0,
    ensures
        search(root, method) is None,
{
    match method {
        TraverseMethod::DepthFirst => {
            assert(seq![root].drop_last().len() == 0);
            run_of_single_dead_end::<Node, Vec<Node>>(seq![root], root);
        },
        TraverseMethod::BreadthFirst => {
            assert(seq![root].drop_last().len() == 0);
            run_of_single_dead_end::<Node, VecDeque<Node>>(seq![root], root);
        },
        TraverseMethod::Greedy => {
            seeded_pops_root(root, BoundOrder, true, None);
            run_of_single_dead_end::<Node, BinaryHeapExt<Node, BoundOrder>>(
                seeded(root, BoundOrder, true),
                root,
            );
        },
        TraverseMethod::Custom { cmp, cmp_superceeds_bound } => {
            seeded_pops_root(root, cmp, cmp_superceeds_bound, None);
            run_of_single_dead_end::<Node, BinaryHeapExt<Node, Cmp>>(
                seeded(root, cmp, cmp_superceeds_bound),
                root,
            );
        },
    }
}

/// The incumbent after every leaf below `n` was solved in turn, with no
/// pruning at all.
pub open spec fn enumerate<S: Subproblem>(n: S, best: Option<(Score, S)>) -> Option<(Score, S)>
    decreases n.height(), 1nat, 0nat,
{
    if n.is_leaf() {
        improved(best, n.objective(), n.solution())
    } else {
        enumerate_from(n, 0, best)
    }
}

/// The incumbent after every leaf below the subproblems of `n`, from the
/// one numbered `from` on, was solved in turn.
pub open spec fn enumerate_from<S: Subproblem>(n: S, from: nat, best: Option<(Score, S)>) -> Option<
    (Score, S),
>
    decreases n.height(), 0nat, n.children().len() - from,
    when !n.is_leaf()
    via enumerate_from_decreases::<S>
{
    if from >= n.children().len() {
        best
    } else {
        enumerate_from(n, from + 1, enumerate(n.children()[from as int], best))
    }
}

#[via_fn]
proof fn enumerate_from_decreases<S: Subproblem>(n: S, from: nat, best: Option<(Score, S)>) {
    n.children_are_lower();
}

/// What enumerating the leaves below `n` ends with: an incumbent that is no
/// worse than before, that is the old one or was attained below `n`, and
/// that no leaf below `n` outscores.
pub proof fn enumerate_law<S: Subproblem>(n: S, best: Option<(Score, S)>)
    ensures
        best matches Some(b) ==> enumerate(n, best) matches Some(r) && b.0 <= r.0,
        enumerate(n, best) == best || (enumerate(n, best) matches Some(r) && attained(
            n,
            r.0,
            r.1,
        )),
        forall|l: S| #[trigger]
            leaf_below(n, l) ==> (enumerate(n, best) matches Some(r) && l.objective() <= r.0),
    decreases n.height(), 1nat, 0nat,
{
    if n.is_leaf() {
        assert(leaf_below(n, n));
    } else {
        enumerate_from_law(n, 0, best);
        let result = enumerate(n, best);
        if result != best {
            let r = result->0;
            let i = choose|i: int|
                0 <= i < n.children().len() && attained(#[trigger] n.children()[i], r.0, r.1);
            let l = choose|l: S| #[trigger]
                leaf_below(n.children()[i], l) && l.objective() == r.0 && l.solution() == r.1;
            assert(leaf_below(n, l));
        }
        assert forall|l: S| #[trigger] leaf_below(n, l) implies (result matches Some(r)
            && l.objective() <= r.0) by {
            let i = choose|i: int|
                0 <= i < n.children().len() && leaf_below(#[trigger] n.children()[i], l);
            assert(leaf_below(n.children()[i], l));
        }
    }
}

proof fn enumerate_from_law<S: Subproblem>(n: S, from: nat, best: Option<(Score, S)>)
    requires
        !n.is_leaf(),
    ensures
        best matches Some(b) ==> enumerate_from(n, from, best) matches Some(r) && b.0 <= r.0,
        enumerate_from(n, from, best) == best || (enumerate_from(n, from, best) matches Some(r)
            && exists|i: int|
            from <= i < n.children().len() && attained(#[trigger] n.children()[i], r.0, r.1)),
        forall|i: int, l: S|
            from <= i < n.children().len() && #[trigger] leaf_below(n.children()[i], l)
                ==> (enumerate_from(n, from, best) matches Some(r) && l.objective() <= r.0),
    decreases n.height(), 0nat, n.children().len() - from,
{
    if from < n.children().len() {
        n.children_are_lower();
        let kid = n.children()[from as int];
        let mid = enumerate(kid, best);
        enumerate_law(kid, best);
        enumerate_from_law(n, from + 1, mid);
        let result = enumerate_from(n, from, best);
        if result != best {
            let r = result->0;
            if result == mid {
                assert(attained(n.children()[from as int], r.0, r.1));
            }
        }
        assert forall|i: int, l: S|
            from <= i < n.children().len() && #[trigger] leaf_below(
                n.children()[i],
                l,
            ) implies (result matches Some(r) && l.objective() <= r.0) by {
            if i == from {
                assert(leaf_below(kid, l));
            }
        }
    }
}

/// Enumerating every leaf finds the optimum, whatever the bounds are.
pub proof fn enumerate_finds_optimum<S: Subproblem>(root: S)
    ensures
        is_optimum(root, enumerate(root, None)),
{
    enumerate_law(root, None);
}

/// Pruning does not change the optimum: if the bounds are upper bounds, the
/// search ends with the score that enumerating every leaf ends with.
pub proof fn pruning_keeps_optimum<Node: Subproblem, Cmp: NodeOrder<Node>>(
    root: Node,
    method: TraverseMethod<Cmp>,
)
    requires
        admissible(root),
        keeps_promise::<Node, Cmp>(method),
    ensures
        score_of(search(root, method)) == score_of(enumerate(root, None)),
{
    search_finds_optimum(root, method);
    enumerate_finds_optimum(root);
    optimum_score_is_unique(root, search(root, method), enumerate(root, None));
}

} // verus!
