//! Nodes that branch into nothing: the search ends as if such a node had
//! never been there, whether it waits in a container or hangs in the tree.
//!
//! In a stack and in a queue the search ends with the very same leaf. In the
//! priority container nodes of equal rank go by their slots, and one node
//! more can shift the slots of the others. There the search ends with the
//! same score if the bounds are upper bounds; among leaves of that score it
//! may end with another, and with bounds that are too low with another
//! score.

use crate::bnb_aware_containers::{before_last_undominated, last_undominated, BnbAwareContainer};
use crate::laws::{
    admissible, barren, is_optimum, keeps_promise, leaf_below, optimum_score_is_unique,
    search_finds_optimum,
};
use crate::order::NodeOrder;
use crate::search::{improved, push_all, run, score_of, step_shrinks};
use crate::traverse::{search, TraverseMethod};
use crate::subproblem::{dominated, Score, Subproblem};
use std::collections::VecDeque;
use vstd::prelude::*;

verus! {

/// The nodes of `kids` that a push under the incumbent's score lets in, in
/// the order of `kids`.
pub open spec fn let_in<S: Subproblem>(kids: Seq<S>, score: Option<Score>) -> Seq<S>
    decreases kids.len(),
{
    if kids.len() == 0 {
        Seq::empty()
    } else if dominated(kids[0], score) {
        let_in(kids.drop_first(), score)
    } else {
        seq![kids[0]] + let_in(kids.drop_first(), score)
    }
}

/// A stack takes the nodes that are let in on top, in their order.
proof fn stack_push_all<S: Subproblem>(m: Seq<S>, kids: Seq<S>, score: Option<Score>)
    ensures
        push_all::<S, Vec<S>>(m, kids, score) == m + let_in(kids, score),
    decreases kids.len(),
{
    if kids.len() > 0 {
        stack_push_all(Vec::<S>::after_push(m, kids[0], score), kids.drop_first(), score);
    }
}

/// A queue takes the nodes that are let in at its front, the last of them
/// foremost.
proof fn queue_push_all<S: Subproblem>(m: Seq<S>, kids: Seq<S>, score: Option<Score>)
    ensures
        push_all::<S, VecDeque<S>>(m, kids, score) == let_in(kids, score).reverse() + m,
    decreases kids.len(),
{
    if kids.len() > 0 {
        queue_push_all(VecDeque::<S>::after_push(m, kids[0], score), kids.drop_first(), score);
    }
}

/// A scan from the back that finds nothing in `back` goes on in what is in
/// front of it.
proof fn scan_passes<S: Subproblem>(front: Seq<S>, back: Seq<S>, score: Option<Score>)
    requires
        last_undominated(back, score) is None,
    ensures
        last_undominated(front + back, score) == last_undominated(front, score),
        before_last_undominated(front + back, score) == before_last_undominated(front, score),
    decreases back.len(),
{
    if back.len() > 0 {
        assert((front + back).drop_last() =~= front + back.drop_last());
        scan_passes(front, back.drop_last(), score);
    }
}

/// A scan from the back that finds a node in `back` leaves what is in front
/// of it alone.
proof fn scan_stops<S: Subproblem>(front: Seq<S>, back: Seq<S>, score: Option<Score>)
    requires
        last_undominated(back, score) is Some,
    ensures
        last_undominated(front + back, score) == last_undominated(back, score),
        before_last_undominated(front + back, score) == front + before_last_undominated(
            back,
            score,
        ),
    decreases back.len(),
{
    assert((front + back).drop_last() =~= front + back.drop_last());
    if dominated(back.last(), score) {
        scan_stops(front, back.drop_last(), score);
    }
}

/// In a stack, a node that branches into nothing might as well not be
/// there: the search ends with the same incumbent without it.
pub proof fn stack_forgets_dead_end<S: Subproblem>(
    front: Seq<S>,
    e: S,
    back: Seq<S>,
    best: Option<(Score, S)>,
)
    requires
        !e.is_leaf(),
        e.children().len() == 0,
    ensures
        run::<S, Vec<S>>(front + seq![e] + back, best) == run::<S, Vec<S>>(front + back, best),
    decreases Vec::<S>::weight(front + seq![e] + back),
{
    let with = front + seq![e] + back;
    let without = front + back;
    let score = score_of(best);
    step_shrinks::<S, Vec<S>>(with, score);
    match last_undominated(back, score) {
        Some(n) => {
            let rest = before_last_undominated(back, score);
            scan_stops(front + seq![e], back, score);
            scan_stops(front, back, score);
            if n.is_leaf() {
                let found = improved(best, n.objective(), n.solution());
                stack_forgets_dead_end(front, e, rest, found);
            } else {
                let grown = rest + let_in(n.children(), score);
                stack_push_all(front + seq![e] + rest, n.children(), score);
                stack_push_all(front + rest, n.children(), score);
                assert(front + seq![e] + rest + let_in(n.children(), score) =~= front + seq![e]
                    + grown);
                assert(front + rest + let_in(n.children(), score) =~= front + grown);
                stack_forgets_dead_end(front, e, grown, best);
            }
        },
        None => {
            scan_passes(front + seq![e], back, score);
            scan_passes(front, back, score);
            assert((front + seq![e]).drop_last() =~= front);
            if !dominated(e, score) {
                assert(run::<S, Vec<S>>(without, best) == run::<S, Vec<S>>(front, best));
            }
        },
    }
}

/// In a queue, a node that branches into nothing might as well not be
/// there: the search ends with the same incumbent without it.
pub proof fn queue_forgets_dead_end<S: Subproblem>(
    front: Seq<S>,
    e: S,
    back: Seq<S>,
    best: Option<(Score, S)>,
)
    requires
        !e.is_leaf(),
        e.children().len() == 0,
    ensures
        run::<S, VecDeque<S>>(front + seq![e] + back, best) == run::<S, VecDeque<S>>(
            front + back,
            best,
        ),
    decreases VecDeque::<S>::weight(front + seq![e] + back),
{
    let with = front + seq![e] + back;
    let without = front + back;
    let score = score_of(best);
    step_shrinks::<S, VecDeque<S>>(with, score);
    match last_undominated(back, score) {
        Some(n) => {
            let rest = before_last_undominated(back, score);
            scan_stops(front + seq![e], back, score);
            scan_stops(front, back, score);
            if n.is_leaf() {
                let found = improved(best, n.objective(), n.solution());
                queue_forgets_dead_end(front, e, rest, found);
            } else {
                let grown = let_in(n.children(), score).reverse() + front;
                queue_push_all(front + seq![e] + rest, n.children(), score);
                queue_push_all(front + rest, n.children(), score);
                assert(let_in(n.children(), score).reverse() + (front + seq![e] + rest) =~= grown
                    + seq![e] + rest);
                assert(let_in(n.children(), score).reverse() + (front + rest) =~= grown + rest);
                queue_forgets_dead_end(grown, e, rest, best);
            }
        },
        None => {
            scan_passes(front + seq![e], back, score);
            scan_passes(front, back, score);
            assert((front + seq![e]).drop_last() =~= front);
            if !dominated(e, score) {
                assert(run::<S, VecDeque<S>>(without, best) == run::<S, VecDeque<S>>(front, best));
            }
        },
    }
}

/// Whether `x` branches into nothing.
pub open spec fn is_dead_end<S: Subproblem>(x: S) -> bool {
    !x.is_leaf() && x.children().len() == 0
}

/// Whether `grown` is `tree` with one dead end more: with one more
/// subproblem, which branches into nothing, under the root or under one of
/// the nodes below it, and else the same tree with the same bounds.
pub open spec fn one_dead_end_more<S: Subproblem>(tree: S, grown: S) -> bool
    decreases tree.height(),
    via one_dead_end_more_decreases::<S>
{
    &&& !tree.is_leaf()
    &&& !grown.is_leaf()
    &&& tree.bound_value() == grown.bound_value()
    &&& exists|i: int|
        0 <= i < grown.children().len() && (added_at(tree, grown, i) || (i
            < tree.children().len() && same_but_at(tree, grown, i) && one_dead_end_more(
            tree.children()[i],
            #[trigger] grown.children()[i],
        )))
}

/// Whether the subproblems of `grown` are those of `tree` and, as the one
/// numbered `i`, a dead end.
pub open spec fn added_at<S: Subproblem>(tree: S, grown: S, i: int) -> bool {
    is_dead_end(grown.children()[i]) && tree.children() == grown.children().remove(i)
}

/// Whether `tree` and `grown` have the same subproblems but for the one
/// numbered `i`.
pub open spec fn same_but_at<S: Subproblem>(tree: S, grown: S, i: int) -> bool {
    grown.children() == tree.children().update(i, grown.children()[i])
}

#[via_fn]
proof fn one_dead_end_more_decreases<S: Subproblem>(tree: S, grown: S) {
    if !tree.is_leaf() {
        tree.children_are_lower();
    }
}

/// What is let in of two sequences, one after the other, is what is let in
/// of the first and then what is let in of the second.
proof fn let_in_both<S: Subproblem>(a: Seq<S>, b: Seq<S>, score: Option<Score>)
    ensures
        let_in(a + b, score) == let_in(a, score) + let_in(b, score),
    decreases a.len(),
{
    if a.len() == 0 {
        assert(a + b =~= b);
        assert(let_in(a, score) + let_in(b, score) =~= let_in(b, score));
    } else {
        assert((a + b).drop_first() =~= a.drop_first() + b);
        let_in_both(a.drop_first(), b, score);
        if dominated(a[0], score) {
        } else {
            assert(seq![a[0]] + (let_in(a.drop_first(), score) + let_in(b, score)) =~= (seq![a[0]]
                + let_in(a.drop_first(), score)) + let_in(b, score));
        }
    }
}

/// What is let in of a sequence with `c` as its member numbered `i`: what is
/// let in of the members before it, `c` unless it is dominated, and what is
/// let in of the members after it.
proof fn let_in_around<S: Subproblem>(kids: Seq<S>, i: int, score: Option<Score>)
    requires
        0 <= i < kids.len(),
    ensures
        let_in(kids, score) == let_in(kids.take(i), score) + let_in(seq![kids[i]], score) + let_in(
            kids.skip(i + 1),
            score,
        ),
        let_in(seq![kids[i]], score) == if dominated(kids[i], score) {
            Seq::<S>::empty()
        } else {
            seq![kids[i]]
        },
{
    let one = seq![kids[i]];
    assert(kids =~= kids.take(i) + one + kids.skip(i + 1));
    let_in_both(kids.take(i) + one, kids.skip(i + 1), score);
    let_in_both(kids.take(i), one, score);
    assert(one.drop_first() =~= Seq::<S>::empty());
    assert(let_in(one.drop_first(), score) =~= Seq::<S>::empty());
    if !dominated(kids[i], score) {
        assert(one + Seq::<S>::empty() =~= one);
    }
}

/// What is let in of a sequence without its member numbered `i`.
proof fn let_in_without<S: Subproblem>(kids: Seq<S>, i: int, score: Option<Score>)
    requires
        0 <= i < kids.len(),
    ensures
        let_in(kids.remove(i), score) == let_in(kids.take(i), score) + let_in(
            kids.skip(i + 1),
            score,
        ),
{
    assert(kids.remove(i) =~= kids.take(i) + kids.skip(i + 1));
    let_in_both(kids.take(i), kids.skip(i + 1), score);
}

/// In a stack, a tree with one dead end more gives what the tree gives: the
/// search ends with the same incumbent.
pub proof fn stack_forgets_added_dead_end<S: Subproblem>(
    front: Seq<S>,
    tree: S,
    grown: S,
    back: Seq<S>,
    best: Option<(Score, S)>,
)
    requires
        one_dead_end_more(tree, grown),
    ensures
        run::<S, Vec<S>>(front + seq![grown] + back, best) == run::<S, Vec<S>>(
            front + seq![tree] + back,
            best,
        ),
    decreases Vec::<S>::weight(front + seq![grown] + back),
{
    let with = front + seq![grown] + back;
    let without = front + seq![tree] + back;
    let score = score_of(best);
    step_shrinks::<S, Vec<S>>(with, score);
    match last_undominated(back, score) {
        Some(n) => {
            let rest = before_last_undominated(back, score);
            scan_stops(front + seq![grown], back, score);
            scan_stops(front + seq![tree], back, score);
            if n.is_leaf() {
                let found = improved(best, n.objective(), n.solution());
                stack_forgets_added_dead_end(front, tree, grown, rest, found);
            } else {
                let more = rest + let_in(n.children(), score);
                stack_push_all(front + seq![grown] + rest, n.children(), score);
                stack_push_all(front + seq![tree] + rest, n.children(), score);
                assert(front + seq![grown] + rest + let_in(n.children(), score) =~= front
                    + seq![grown] + more);
                assert(front + seq![tree] + rest + let_in(n.children(), score) =~= front
                    + seq![tree] + more);
                stack_forgets_added_dead_end(front, tree, grown, more, best);
            }
        },
        None => {
            scan_passes(front + seq![grown], back, score);
            scan_passes(front + seq![tree], back, score);
            assert((front + seq![grown]).drop_last() =~= front);
            assert((front + seq![tree]).drop_last() =~= front);
            if !dominated(grown, score) {
                let kids = tree.children();
                let more = grown.children();
                stack_push_all(front, kids, score);
                stack_push_all(front, more, score);
                assert(Vec::<S>::next(with, score) == Some(grown));
                assert(Vec::<S>::after_pop(with, score) == front);
                assert(Vec::<S>::next(without, score) == Some(tree));
                assert(Vec::<S>::after_pop(without, score) == front);
                assert(run::<S, Vec<S>>(with, best) == run::<S, Vec<S>>(
                    front + let_in(more, score),
                    best,
                ));
                assert(run::<S, Vec<S>>(without, best) == run::<S, Vec<S>>(
                    front + let_in(kids, score),
                    best,
                ));
                let i = choose|i: int|
                    0 <= i < more.len() && (added_at(tree, grown, i) || (i < kids.len()
                        && same_but_at(tree, grown, i) && one_dead_end_more(
                        kids[i],
                        #[trigger] more[i],
                    )));
                let before = let_in(more.take(i), score);
                let after = let_in(more.skip(i + 1), score);
                let_in_around(more, i, score);
                if added_at(tree, grown, i) {
                    let_in_without(more, i, score);
                    if dominated(more[i], score) {
                        assert(before + Seq::<S>::empty() + after =~= before + after);
                    } else {
                        stack_forgets_dead_end(front + before, more[i], after, best);
                        assert(front + (before + seq![more[i]] + after) =~= front + before
                            + seq![more[i]] + after);
                        assert(front + (before + after) =~= front + before + after);
                    }
                } else {
                    let_in_around(kids, i, score);
                    assert(kids.take(i) =~= more.take(i));
                    assert(kids.skip(i + 1) =~= more.skip(i + 1));
                    if dominated(more[i], score) {
                    } else {
                        assert(front + (before + seq![more[i]] + after) =~= front + before
                            + seq![more[i]] + after);
                        assert(front + (before + seq![kids[i]] + after) =~= front + before
                            + seq![kids[i]] + after);
                        stack_forgets_added_dead_end(front + before, kids[i], more[i], after, best);
                    }
                }
            }
        },
    }
}

/// In a queue, a tree with one dead end more gives what the tree gives: the
/// search ends with the same incumbent.
pub proof fn queue_forgets_added_dead_end<S: Subproblem>(
    front: Seq<S>,
    tree: S,
    grown: S,
    back: Seq<S>,
    best: Option<(Score, S)>,
)
    requires
        one_dead_end_more(tree, grown),
    ensures
        run::<S, VecDeque<S>>(front + seq![grown] + back, best) == run::<S, VecDeque<S>>(
            front + seq![tree] + back,
            best,
        ),
    decreases VecDeque::<S>::weight(front + seq![grown] + back),
{
    let with = front + seq![grown] + back;
    let without = front + seq![tree] + back;
    let score = score_of(best);
    step_shrinks::<S, VecDeque<S>>(with, score);
    match last_undominated(back, score) {
        Some(n) => {
            let rest = before_last_undominated(back, score);
            scan_stops(front + seq![grown], back, score);
            scan_stops(front + seq![tree], back, score);
            if n.is_leaf() {
                let found = improved(best, n.objective(), n.solution());
                queue_forgets_added_dead_end(front, tree, grown, rest, found);
            } else {
                let more = let_in(n.children(), score).reverse() + front;
                queue_push_all(front + seq![grown] + rest, n.children(), score);
                queue_push_all(front + seq![tree] + rest, n.children(), score);
                assert(let_in(n.children(), score).reverse() + (front + seq![grown] + rest) =~= more
                    + seq![grown] + rest);
                assert(let_in(n.children(), score).reverse() + (front + seq![tree] + rest) =~= more
                    + seq![tree] + rest);
                queue_forgets_added_dead_end(more, tree, grown, rest, best);
            }
        },
        None => {
            scan_passes(front + seq![grown], back, score);
            scan_passes(front + seq![tree], back, score);
            assert((front + seq![grown]).drop_last() =~= front);
            assert((front + seq![tree]).drop_last() =~= front);
            if !dominated(grown, score) {
                let kids = tree.children();
                let more = grown.children();
                queue_push_all(front, kids, score);
                queue_push_all(front, more, score);
                assert(VecDeque::<S>::next(with, score) == Some(grown));
                assert(VecDeque::<S>::after_pop(with, score) == front);
                assert(VecDeque::<S>::next(without, score) == Some(tree));
                assert(VecDeque::<S>::after_pop(without, score) == front);
                assert(run::<S, VecDeque<S>>(with, best) == run::<S, VecDeque<S>>(
                    let_in(more, score).reverse() + front,
                    best,
                ));
                assert(run::<S, VecDeque<S>>(without, best) == run::<S, VecDeque<S>>(
                    let_in(kids, score).reverse() + front,
                    best,
                ));
                let i = choose|i: int|
                    0 <= i < more.len() && (added_at(tree, grown, i) || (i < kids.len()
                        && same_but_at(tree, grown, i) && one_dead_end_more(
                        kids[i],
                        #[trigger] more[i],
                    )));
                let before = let_in(more.take(i), score);
                let after = let_in(more.skip(i + 1), score);
                // In the queue the nodes let in stand in reverse: those after the member
                // numbered `i` in front of it, those before it behind it.
                let ahead = after.reverse();
                let behind = before.reverse() + front;
                let_in_around(more, i, score);
                if added_at(tree, grown, i) {
                    let_in_without(more, i, score);
                    if dominated(more[i], score) {
                        assert(before + Seq::<S>::empty() + after =~= before + after);
                    } else {
                        queue_forgets_dead_end(ahead, more[i], behind, best);
                        assert((before + seq![more[i]] + after).reverse() + front =~= ahead
                            + seq![more[i]] + behind);
                        assert((before + after).reverse() + front =~= ahead + behind);
                    }
                } else {
                    let_in_around(kids, i, score);
                    assert(kids.take(i) =~= more.take(i));
                    assert(kids.skip(i + 1) =~= more.skip(i + 1));
                    if dominated(more[i], score) {
                    } else {
                        assert((before + seq![more[i]] + after).reverse() + front =~= ahead
                            + seq![more[i]] + behind);
                        assert((before + seq![kids[i]] + after).reverse() + front =~= ahead
                            + seq![kids[i]] + behind);
                        queue_forgets_added_dead_end(ahead, kids[i], more[i], behind, best);
                    }
                }
            }
        },
    }
}

/// Depth first and breadth first, a tree with one dead end more gives the
/// leaf that the tree gives, with the same score.
pub proof fn search_forgets_added_dead_end<Node: Subproblem, Cmp: NodeOrder<Node>>(
    tree: Node,
    grown: Node,
)
    requires
        one_dead_end_more(tree, grown),
    ensures
        search(grown, TraverseMethod::<Cmp>::DepthFirst) == search(
            tree,
            TraverseMethod::<Cmp>::DepthFirst,
        ),
        search(grown, TraverseMethod::<Cmp>::BreadthFirst) == search(
            tree,
            TraverseMethod::<Cmp>::BreadthFirst,
        ),
{
    let none = Seq::<Node>::empty();
    assert(none + seq![grown] + none =~= seq![grown]);
    assert(none + seq![tree] + none =~= seq![tree]);
    stack_forgets_added_dead_end(none, tree, grown, none, None);
    queue_forgets_added_dead_end(none, tree, grown, none, None);
}

/// A tree with one dead end more has the leaves of the tree, and no other.
pub proof fn added_dead_end_adds_no_leaf<S: Subproblem>(tree: S, grown: S, l: S)
    requires
        one_dead_end_more(tree, grown),
    ensures
        leaf_below(grown, l) <==> leaf_below(tree, l),
    decreases tree.height(),
{
    tree.children_are_lower();
    let kids = tree.children();
    let more = grown.children();
    let i = choose|i: int|
        0 <= i < more.len() && (added_at(tree, grown, i) || (i < kids.len() && same_but_at(
            tree,
            grown,
            i,
        ) && one_dead_end_more(kids[i], #[trigger] more[i])));
    if added_at(tree, grown, i) {
        if leaf_below(grown, l) {
            let j = choose|j: int| 0 <= j < more.len() && leaf_below(#[trigger] more[j], l);
            if j < i {
                assert(kids[j] == more[j]);
            } else {
                assert(j > i);
                assert(kids[j - 1] == more[j]);
            }
        }
        if leaf_below(tree, l) {
            let j = choose|j: int| 0 <= j < kids.len() && leaf_below(#[trigger] kids[j], l);
            if j < i {
                assert(more[j] == kids[j]);
            } else {
                assert(more[j + 1] == kids[j]);
            }
        }
    } else {
        added_dead_end_adds_no_leaf(kids[i], more[i], l);
        if leaf_below(grown, l) {
            let j = choose|j: int| 0 <= j < more.len() && leaf_below(#[trigger] more[j], l);
            assert(j != i ==> kids[j] == more[j]);
            assert(leaf_below(kids[j], l));
        }
        if leaf_below(tree, l) {
            let j = choose|j: int| 0 <= j < kids.len() && leaf_below(#[trigger] kids[j], l);
            assert(j != i ==> kids[j] == more[j]);
            assert(leaf_below(more[j], l));
        }
    }
}

/// If the bounds in a tree are upper bounds, they still are with one dead
/// end more, whatever the dead end's own bound.
pub proof fn added_dead_end_keeps_bounds<S: Subproblem>(tree: S, grown: S)
    requires
        one_dead_end_more(tree, grown),
        admissible(tree),
    ensures
        admissible(grown),
    decreases tree.height(),
{
    tree.children_are_lower();
    let kids = tree.children();
    let more = grown.children();
    assert forall|l: S| #[trigger] leaf_below(grown, l) implies l.objective()
        <= grown.bound_value() by {
        added_dead_end_adds_no_leaf(tree, grown, l);
    }
    let i = choose|i: int|
        0 <= i < more.len() && (added_at(tree, grown, i) || (i < kids.len() && same_but_at(
            tree,
            grown,
            i,
        ) && one_dead_end_more(kids[i], #[trigger] more[i])));
    assert forall|j: int| 0 <= j < more.len() implies admissible(#[trigger] more[j]) by {
        if added_at(tree, grown, i) {
            if j < i {
                assert(more[j] == kids[j]);
            } else if j > i {
                assert(more[j] == kids[j - 1]);
            }
        } else {
            if j == i {
                added_dead_end_keeps_bounds(kids[i], more[i]);
            } else {
                assert(more[j] == kids[j]);
            }
        }
    }
}

/// Whatever the method, a tree with one dead end more gives the score that
/// the tree gives, if the bounds in the tree are upper bounds.
pub proof fn added_dead_end_keeps_score<Node: Subproblem, Cmp: NodeOrder<Node>>(
    tree: Node,
    grown: Node,
    method: TraverseMethod<Cmp>,
)
    requires
        one_dead_end_more(tree, grown),
        admissible(tree),
        keeps_promise::<Node, Cmp>(method),
    ensures
        score_of(search(grown, method)) == score_of(search(tree, method)),
{
    added_dead_end_keeps_bounds(tree, grown);
    search_finds_optimum(tree, method);
    search_finds_optimum(grown, method);
    let found = search(grown, method);
    assert(is_optimum(tree, found)) by {
        assert forall|l: Node| leaf_below(grown, l) <==> leaf_below(tree, l) by {
            added_dead_end_adds_no_leaf(tree, grown, l);
        }
        if let Some(r) = found {
            let l = choose|l: Node| #[trigger]
                leaf_below(grown, l) && l.objective() == r.0 && l.solution() == r.1;
            assert(leaf_below(tree, l));
        }
    }
    optimum_score_is_unique(tree, found, search(tree, method));
}

} // verus!
