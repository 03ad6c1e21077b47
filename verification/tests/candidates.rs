use branch_and_bound::candidate::{BoundOrderedCandidate, DepthOrderedCandidate, KeyOrder};
use branch_and_bound::graph::{fork, graph, leaf, GraphNode};
use branch_and_bound::{
    solve_with_container, BinaryHeapExt, BnbAwareContainer, NodeOrder, OrderedCandidate, Subproblem,
    SubproblemResolution,
};

#[test]
fn bound_candidate_keeps_its_node_and_the_bound() {
    let candidate = BoundOrderedCandidate::new(graph());
    assert_eq!(candidate.key(), 8);
    assert_eq!(candidate.bound(), 8);
    assert_eq!(candidate.node(), &graph());
    assert_eq!(candidate.into_node(), graph());
}

#[test]
fn bound_candidate_passes_a_score_on() {
    let mut candidate = BoundOrderedCandidate::new(leaf(4));
    match candidate.branch_or_evaluate() {
        SubproblemResolution::Solved(score) => assert_eq!(score, 4),
        SubproblemResolution::Branched(_) => panic!("a leaf does not branch"),
    }
    assert_eq!(candidate.key(), 4);
    assert_eq!(candidate.into_node(), leaf(4));
}

#[test]
fn bound_candidate_wraps_subproblems_under_their_own_bounds() {
    let mut candidate = BoundOrderedCandidate::new(graph());
    match candidate.branch_or_evaluate() {
        SubproblemResolution::Solved(_) => panic!("the root is no leaf"),
        SubproblemResolution::Branched(produced) => {
            let produced: Vec<BoundOrderedCandidate<GraphNode>> = produced.collect();
            assert_eq!(produced.len(), 2);
            assert_eq!(produced[0].key(), 5);
            assert_eq!(produced[1].key(), 7);
            assert_eq!(produced[0].node(), &fork(5, leaf(1), fork(4, leaf(2), leaf(3))));
            assert_eq!(produced[1].node(), &fork(7, leaf(0), fork(6, leaf(4), leaf(5))));
        },
    }
}

#[test]
fn depth_candidate_counts_the_way_down() {
    let mut candidate = DepthOrderedCandidate::new(graph());
    assert_eq!(candidate.depth(), 0);
    assert_eq!(candidate.key(), i64::MIN);
    assert_eq!(candidate.bound(), 8);
    assert_eq!(candidate.node(), &graph());
    let mut below = match candidate.branch_or_evaluate() {
        SubproblemResolution::Solved(_) => panic!("the root is no leaf"),
        SubproblemResolution::Branched(produced) => produced.collect::<Vec<_>>(),
    };
    assert_eq!(below.len(), 2);
    assert_eq!(below[0].depth(), 1);
    assert_eq!(below[1].depth(), 1);
    assert_eq!(below[0].key(), i64::MIN + 1);
    assert_eq!(below[1].key(), i64::MIN + 1);
    assert_eq!(below[1].bound(), 7);
    let deeper = match below[1].branch_or_evaluate() {
        SubproblemResolution::Solved(_) => panic!("an inner node is no leaf"),
        SubproblemResolution::Branched(produced) => produced.collect::<Vec<_>>(),
    };
    assert_eq!(deeper[0].depth(), 2);
    assert_eq!(deeper[0].key(), i64::MIN + 2);
    assert_eq!(deeper[0].node(), &leaf(0));
    let mut last = DepthOrderedCandidate::new(leaf(3));
    match last.branch_or_evaluate() {
        SubproblemResolution::Solved(score) => assert_eq!(score, 3),
        SubproblemResolution::Branched(_) => panic!("a leaf does not branch"),
    }
    assert_eq!(last.into_node(), leaf(3));
}

#[test]
fn key_order_ranks_a_candidate_by_its_key() {
    assert_eq!(KeyOrder.rank(&BoundOrderedCandidate::new(leaf(-3))), -3);
    assert_eq!(KeyOrder.rank(&DepthOrderedCandidate::new(leaf(-3))), i64::MIN);
}

#[test]
fn a_search_on_bound_candidates_finds_leaf5() {
    let mut heap = BinaryHeapExt::new(KeyOrder, true);
    heap.push_with_incumbent(BoundOrderedCandidate::new(graph()), None);
    let found = solve_with_container(heap).map(|c| c.into_node());
    assert_eq!(found, Some(leaf(5)));
}

#[test]
fn a_search_on_depth_candidates_finds_leaf5() {
    let mut heap = BinaryHeapExt::new(KeyOrder, false);
    heap.push_with_incumbent(DepthOrderedCandidate::new(graph()), None);
    let found = solve_with_container(heap).map(|c| c.into_node());
    assert_eq!(found, Some(leaf(5)));
    let mut stack: Vec<DepthOrderedCandidate<GraphNode>> = Vec::new();
    stack.push_with_incumbent(DepthOrderedCandidate::new(graph()), None);
    let found = solve_with_container(stack).map(|c| c.into_node());
    assert_eq!(found, Some(leaf(5)));
}

#[test]
fn candidates_compare_by_their_keys_alone() {
    let three = BoundOrderedCandidate::new(leaf(3));
    let other_three = BoundOrderedCandidate::new(fork(3, leaf(1), leaf(2)));
    let four = BoundOrderedCandidate::new(leaf(4));
    assert!(three == other_three);
    assert!(three != four);
    assert!(three < four);
    assert!(four > three);
    assert!(three <= other_three);
    assert!(!(three < other_three));
    assert_eq!(three.partial_cmp(&four), Some(std::cmp::Ordering::Less));
    assert_eq!(four.partial_cmp(&three), Some(std::cmp::Ordering::Greater));
    assert_eq!(three.partial_cmp(&other_three), Some(std::cmp::Ordering::Equal));

    let mut root = DepthOrderedCandidate::new(graph());
    let other_root = DepthOrderedCandidate::new(leaf(1));
    assert!(root == other_root);
    let below = match root.branch_or_evaluate() {
        SubproblemResolution::Solved(_) => panic!("the root is no leaf"),
        SubproblemResolution::Branched(produced) => produced.collect::<Vec<_>>(),
    };
    assert!(other_root < below[0]);
    assert!(below[0] == below[1]);
    assert_eq!(below[0].partial_cmp(&other_root), Some(std::cmp::Ordering::Greater));
}

#[test]
fn a_subproblem_compares_greater_than_its_parent() {
    let mut parent = DepthOrderedCandidate::new(graph());
    let parent_key = parent.key();
    let parent_depth = parent.depth();
    let mut below = match parent.branch_or_evaluate() {
        SubproblemResolution::Solved(_) => panic!("the root is no leaf"),
        SubproblemResolution::Branched(produced) => produced.collect::<Vec<_>>(),
    };
    for child in below.iter() {
        assert_eq!(child.depth(), parent_depth + 1);
        assert!(child.key() > parent_key);
        assert_eq!(
            child.partial_cmp(&DepthOrderedCandidate::new(leaf(0))),
            Some(std::cmp::Ordering::Greater)
        );
    }
    let deeper = match below[0].branch_or_evaluate() {
        SubproblemResolution::Solved(_) => panic!("an inner node is no leaf"),
        SubproblemResolution::Branched(produced) => produced.collect::<Vec<_>>(),
    };
    assert!(deeper[0] > below[1]);
    assert!(below[1] < deeper[1]);
    assert!(deeper[0] == deeper[1]);
    assert!(KeyOrder.rank(&deeper[0]) > KeyOrder.rank(&below[1]));
}

#[test]
fn a_heap_of_depth_candidates_hands_out_the_deepest_first() {
    let mut root = DepthOrderedCandidate::new(graph());
    let mut below = match root.branch_or_evaluate() {
        SubproblemResolution::Solved(_) => panic!("the root is no leaf"),
        SubproblemResolution::Branched(produced) => produced.collect::<Vec<_>>(),
    };
    let mut second = below.pop().unwrap();
    let first = below.pop().unwrap();
    let mut deeper = match second.branch_or_evaluate() {
        SubproblemResolution::Solved(_) => panic!("an inner node is no leaf"),
        SubproblemResolution::Branched(produced) => produced.collect::<Vec<_>>(),
    };
    let deepest = deeper.pop().unwrap();
    let mut heap = BinaryHeapExt::new(KeyOrder, false);
    heap.push_with_incumbent(DepthOrderedCandidate::new(leaf(9)), None);
    heap.push_with_incumbent(deepest, None);
    heap.push_with_incumbent(first, None);
    assert_eq!(heap.pop_with_incumbent(None).map(|c| c.depth()), Some(2));
    assert_eq!(heap.pop_with_incumbent(None).map(|c| c.depth()), Some(1));
    assert_eq!(heap.pop_with_incumbent(None).map(|c| c.depth()), Some(0));
    assert!(heap.pop_with_incumbent(None).is_none());
}

#[test]
fn depth_candidates_compare_as_their_depths_over_the_whole_range() {
    let half: u64 = 1 << 63;
    let depths = [0, 1, half - 2, half - 1, half, half + 1, u64::MAX - 1, u64::MAX];
    let keys = [i64::MIN, i64::MIN + 1, -2, -1, 0, 1, i64::MAX - 1, i64::MAX];
    for (i, a) in depths.iter().enumerate() {
        let first = DepthOrderedCandidate::at_depth(leaf(1), *a);
        assert_eq!(first.depth(), *a);
        assert_eq!(first.key(), keys[i]);
        assert_eq!(KeyOrder.rank(&first), keys[i]);
        for b in depths.iter() {
            let second = DepthOrderedCandidate::at_depth(leaf(2), *b);
            assert_eq!(first.partial_cmp(&second), Some(a.cmp(b)));
            assert_eq!(first == second, a == b);
            assert_eq!(first < second, a < b);
            assert_eq!(first.key().cmp(&second.key()), a.cmp(b));
        }
    }
}

#[test]
fn a_subproblem_lies_one_deeper_at_every_depth_but_the_greatest() {
    let half: u64 = 1 << 63;
    for depth in [0, half - 1, half, u64::MAX - 1] {
        let mut parent = DepthOrderedCandidate::at_depth(fork(3, leaf(1), leaf(2)), depth);
        let below = match parent.branch_or_evaluate() {
            SubproblemResolution::Solved(_) => panic!("an inner node is no leaf"),
            SubproblemResolution::Branched(produced) => produced.collect::<Vec<_>>(),
        };
        let same_depth = DepthOrderedCandidate::at_depth(leaf(0), depth);
        for child in below.iter() {
            assert_eq!(child.depth(), depth + 1);
            assert_eq!(child.partial_cmp(&same_depth), Some(std::cmp::Ordering::Greater));
        }
        assert!(below[0] == below[1]);
    }
    let mut deepest = DepthOrderedCandidate::at_depth(fork(3, leaf(1), leaf(2)), u64::MAX);
    let below = match deepest.branch_or_evaluate() {
        SubproblemResolution::Solved(_) => panic!("an inner node is no leaf"),
        SubproblemResolution::Branched(produced) => produced.collect::<Vec<_>>(),
    };
    assert_eq!(below[0].depth(), u64::MAX);
    assert_eq!(below[0].key(), i64::MAX);
}
