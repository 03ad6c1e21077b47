use branch_and_bound::graph::{fork, graph, leaf, GraphNode};
use branch_and_bound::{solve, solve_by, solve_with_container, BoundOrder, NodeOrder, TraverseMethod};
use branch_and_bound::{BinaryHeapExt, BnbAwareContainer, Subproblem, SubproblemResolution};
use std::collections::VecDeque;

/// Ranks a node the higher, the lower its bound is.
struct WorstFirst;

impl NodeOrder<GraphNode> for WorstFirst {
    fn rank_value(&self, _n: &GraphNode) -> i64 {
        unreachable!()
    }

    fn rank(&self, n: &GraphNode) -> i64 {
        -n.bound
    }
}

/// Ranks a node by its bound, as best-first search does.
struct ByBound;

impl NodeOrder<GraphNode> for ByBound {
    fn rank_value(&self, _n: &GraphNode) -> i64 {
        unreachable!()
    }

    fn rank(&self, n: &GraphNode) -> i64 {
        n.bound
    }
}

fn best_leaf_score(n: &GraphNode) -> i64 {
    if n.next.is_empty() {
        n.bound
    } else {
        n.next.iter().map(best_leaf_score).max().unwrap()
    }
}

/// A tree of the given depth whose leaves take their scores from a fixed
/// sequence and whose bounds are the best score below, plus some slack.
fn grown(depth: u32, seed: &mut u64) -> GraphNode {
    *seed = seed.wrapping_mul(6364136223846793005).wrapping_add(1442695040888963407);
    let draw = (*seed >> 33) as i64;
    if depth == 0 {
        return leaf(draw % 50);
    }
    let width = 1 + (draw % 3) as usize;
    let mut next = Vec::new();
    for _ in 0..width {
        next.push(grown(depth - 1, seed));
    }
    let best = next.iter().map(best_leaf_score).max().unwrap();
    GraphNode { bound: best + draw % 4, next }
}

#[test]
fn sample_tree_has_the_stated_shape() {
    let root = graph();
    assert_eq!(root.bound, 8);
    assert_eq!(root.next.len(), 2);
    assert_eq!(root.next[0].bound, 5);
    assert_eq!(root.next[0].next[0], leaf(1));
    assert_eq!(root.next[0].next[1], fork(4, leaf(2), leaf(3)));
    assert_eq!(root.next[1].bound, 7);
    assert_eq!(root.next[1].next[0], leaf(0));
    assert_eq!(root.next[1].next[1], fork(6, leaf(4), leaf(5)));
}

#[test]
fn depth_first_finds_leaf5() {
    assert_eq!(solve(graph(), TraverseMethod::DepthFirst), Some(leaf(5)));
}

#[test]
fn breadth_first_finds_leaf5() {
    assert_eq!(solve(graph(), TraverseMethod::BreadthFirst), Some(leaf(5)));
}

#[test]
fn best_first_finds_leaf5() {
    assert_eq!(solve(graph(), TraverseMethod::Greedy), Some(leaf(5)));
}

#[test]
fn custom_order_by_bound_finds_leaf5() {
    let method: TraverseMethod<Box<dyn NodeOrder<GraphNode>>> =
        TraverseMethod::Custom { cmp: Box::new(ByBound), cmp_superceeds_bound: true };
    assert_eq!(solve(graph(), method), Some(leaf(5)));
}

#[test]
fn worst_first_without_early_stop_finds_leaf5() {
    let method: TraverseMethod<Box<dyn NodeOrder<GraphNode>>> =
        TraverseMethod::Custom { cmp: Box::new(WorstFirst), cmp_superceeds_bound: false };
    assert_eq!(solve(graph(), method), Some(leaf(5)));
}

#[test]
fn custom_order_of_a_plain_type_finds_leaf5() {
    let method = TraverseMethod::Custom { cmp: BoundOrder, cmp_superceeds_bound: true };
    assert_eq!(solve_by(graph(), method), Some(leaf(5)));
    let method = TraverseMethod::Custom { cmp: WorstFirst, cmp_superceeds_bound: false };
    assert_eq!(solve_by(graph(), method), Some(leaf(5)));
}

#[test]
fn a_root_that_is_a_leaf_is_the_result() {
    assert_eq!(solve(leaf(7), TraverseMethod::DepthFirst), Some(leaf(7)));
    assert_eq!(solve(leaf(7), TraverseMethod::BreadthFirst), Some(leaf(7)));
    assert_eq!(solve(leaf(7), TraverseMethod::Greedy), Some(leaf(7)));
    let method: TraverseMethod<Box<dyn NodeOrder<GraphNode>>> =
        TraverseMethod::Custom { cmp: Box::new(WorstFirst), cmp_superceeds_bound: false };
    assert_eq!(solve(leaf(7), method), Some(leaf(7)));
    let method: TraverseMethod<Box<dyn NodeOrder<GraphNode>>> =
        TraverseMethod::Custom { cmp: Box::new(ByBound), cmp_superceeds_bound: true };
    assert_eq!(solve(leaf(7), method), Some(leaf(7)));
}

#[test]
fn extreme_scores_are_handled() {
    assert_eq!(solve(leaf(i64::MIN), TraverseMethod::Greedy), Some(leaf(i64::MIN)));
    let tree = fork(i64::MAX, leaf(i64::MIN), leaf(i64::MAX));
    assert_eq!(solve(tree, TraverseMethod::DepthFirst), Some(leaf(i64::MAX)));
    let tree = fork(i64::MAX, leaf(i64::MIN), leaf(i64::MAX));
    assert_eq!(solve(tree, TraverseMethod::BreadthFirst), Some(leaf(i64::MAX)));
    let tree = fork(i64::MAX, leaf(i64::MIN), leaf(i64::MAX));
    assert_eq!(solve(tree, TraverseMethod::Greedy), Some(leaf(i64::MAX)));
}

#[test]
fn of_equal_scores_the_first_found_stays() {
    // Two leaves score 3; they differ in nothing else, so wrap them to tell them apart.
    let left = fork(3, leaf(3), leaf(1));
    let right = fork(3, leaf(2), leaf(3));
    let tree = fork(3, left, right);
    // Depth first visits the subproblem produced last first: `right`, and in it leaf(3).
    // After that nothing beats 3, so every other node is dominated.
    assert_eq!(solve(tree, TraverseMethod::DepthFirst), Some(leaf(3)));
}

#[test]
fn all_methods_agree_with_enumeration_on_grown_trees() {
    for start in 0..40u64 {
        let mut seed = start;
        let expected = best_leaf_score(&grown(4, &mut seed));
        let mut seed = start;
        assert_eq!(solve(grown(4, &mut seed), TraverseMethod::DepthFirst).unwrap().bound, expected);
        let mut seed = start;
        assert_eq!(solve(grown(4, &mut seed), TraverseMethod::BreadthFirst).unwrap().bound, expected);
        let mut seed = start;
        assert_eq!(solve(grown(4, &mut seed), TraverseMethod::Greedy).unwrap().bound, expected);
        let mut seed = start;
        let method: TraverseMethod<Box<dyn NodeOrder<GraphNode>>> =
        TraverseMethod::Custom { cmp: Box::new(ByBound), cmp_superceeds_bound: true };
        assert_eq!(solve(grown(4, &mut seed), method).unwrap().bound, expected);
        let mut seed = start;
        let method: TraverseMethod<Box<dyn NodeOrder<GraphNode>>> =
        TraverseMethod::Custom { cmp: Box::new(WorstFirst), cmp_superceeds_bound: false };
        assert_eq!(solve(grown(4, &mut seed), method).unwrap().bound, expected);
    }
}

#[test]
fn the_same_search_gives_the_same_leaf() {
    for start in 0..10u64 {
        let mut seed = start;
        let first = solve(grown(4, &mut seed), TraverseMethod::BreadthFirst);
        let mut seed = start;
        let second = solve(grown(4, &mut seed), TraverseMethod::BreadthFirst);
        assert_eq!(first, second);
        let mut seed = start;
        let first = solve(grown(4, &mut seed), TraverseMethod::Greedy);
        let mut seed = start;
        let second = solve(grown(4, &mut seed), TraverseMethod::Greedy);
        assert_eq!(first, second);
    }
}

#[test]
fn a_container_may_start_with_several_roots() {
    let mut stack: Vec<GraphNode> = Vec::new();
    stack.push_with_incumbent(graph(), None);
    stack.push_with_incumbent(fork(9, leaf(9), leaf(6)), None);
    assert_eq!(solve_with_container(stack), Some(leaf(9)));

    let mut queue: VecDeque<GraphNode> = VecDeque::new();
    queue.push_with_incumbent(graph(), None);
    queue.push_with_incumbent(fork(9, leaf(9), leaf(6)), None);
    assert_eq!(solve_with_container(queue), Some(leaf(9)));

    let mut heap = BinaryHeapExt::new(BoundOrder, true);
    heap.push_with_incumbent(graph(), None);
    heap.push_with_incumbent(fork(9, leaf(9), leaf(6)), None);
    assert_eq!(solve_with_container(heap), Some(leaf(9)));
}

#[test]
fn an_empty_container_gives_nothing() {
    let stack: Vec<GraphNode> = Vec::new();
    assert_eq!(solve_with_container(stack), None);
    let queue: VecDeque<GraphNode> = VecDeque::new();
    assert_eq!(solve_with_container(queue), None);
    let heap: BinaryHeapExt<GraphNode, BoundOrder> = BinaryHeapExt::new(BoundOrder, true);
    assert_eq!(solve_with_container(heap), None);
}

#[test]
fn an_inner_node_hands_out_its_subproblems_and_keeps_its_bound() {
    let mut root = graph();
    match root.branch_or_evaluate() {
        SubproblemResolution::Solved(_) => panic!("the root is no leaf"),
        SubproblemResolution::Branched(produced) => {
            let produced: Vec<GraphNode> = produced.collect();
            assert_eq!(produced, graph().next);
        },
    }
    assert_eq!(root.bound, 8);
}

#[test]
fn a_leaf_stays_as_it_is_when_it_is_solved() {
    let mut node = leaf(4);
    match node.branch_or_evaluate() {
        SubproblemResolution::Solved(score) => assert_eq!(score, 4),
        SubproblemResolution::Branched(_) => panic!("a leaf does not branch"),
    }
    assert_eq!(node, leaf(4));
    assert_eq!(node.bound(), 4);
}
