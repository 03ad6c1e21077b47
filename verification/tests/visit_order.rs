use branch_and_bound::{
    solve, solve_with_container, BnbAwareContainer, Height, NodeOrder, Nodes, Subproblem,
    SubproblemResolution, TraverseMethod,
};
use std::cell::RefCell;
use std::rc::Rc;

/// A node of an explicit tree that writes its bound into a log when it is
/// evaluated. A node marked as a dead end branches into nothing.
struct Traced {
    bound: i64,
    next: Vec<Traced>,
    dead_end: bool,
    log: Rc<RefCell<Vec<i64>>>,
}

impl Subproblem for Traced {
    type Children = std::vec::IntoIter<Traced>;

    fn bound_value(&self) -> i64 {
        unreachable!()
    }

    fn is_leaf(&self) -> bool {
        unreachable!()
    }

    fn objective(&self) -> i64 {
        unreachable!()
    }

    fn solution(&self) -> Self {
        unreachable!()
    }

    fn children(&self) -> Nodes<Self> {
        unreachable!()
    }

    fn height(&self) -> Height {
        unreachable!()
    }

    fn children_are_lower(&self) {}

    fn branch_or_evaluate(&mut self) -> SubproblemResolution<Self::Children, i64> {
        self.log.borrow_mut().push(self.bound);
        if self.next.is_empty() && !self.dead_end {
            SubproblemResolution::Solved(self.bound)
        } else {
            SubproblemResolution::Branched(std::mem::take(&mut self.next).into_iter())
        }
    }

    fn bound(&self) -> i64 {
        self.bound
    }
}

struct ByBound;

impl NodeOrder<Traced> for ByBound {
    fn rank_value(&self, _n: &Traced) -> i64 {
        unreachable!()
    }

    fn rank(&self, n: &Traced) -> i64 {
        n.bound
    }
}

struct WorstFirst;

impl NodeOrder<Traced> for WorstFirst {
    fn rank_value(&self, _n: &Traced) -> i64 {
        unreachable!()
    }

    fn rank(&self, n: &Traced) -> i64 {
        -n.bound
    }
}

fn leaf(bound: i64, log: &Rc<RefCell<Vec<i64>>>) -> Traced {
    Traced { bound, next: vec![], dead_end: false, log: log.clone() }
}

fn dead_end(bound: i64, log: &Rc<RefCell<Vec<i64>>>) -> Traced {
    Traced { bound, next: vec![], dead_end: true, log: log.clone() }
}

fn inner(bound: i64, next: Vec<Traced>, log: &Rc<RefCell<Vec<i64>>>) -> Traced {
    Traced { bound, next, dead_end: false, log: log.clone() }
}

/// The sample tree: leaves 0 to 5, leaf2 and leaf3 under bound 4, leaf1 and
/// that node under bound 5, leaf4 and leaf5 under bound 6, leaf0 and that
/// node under bound 7, and the two subtrees of bounds 5 and 7 under the root.
fn sample(log: &Rc<RefCell<Vec<i64>>>) -> Traced {
    let parent23 = inner(4, vec![leaf(2, log), leaf(3, log)], log);
    let parent1p23 = inner(5, vec![leaf(1, log), parent23], log);
    let parent45 = inner(6, vec![leaf(4, log), leaf(5, log)], log);
    let parent0p45 = inner(7, vec![leaf(0, log), parent45], log);
    inner(8, vec![parent1p23, parent0p45], log)
}

fn visits(method: TraverseMethod<Box<dyn NodeOrder<Traced>>>) -> (Option<i64>, Vec<i64>) {
    let log = Rc::new(RefCell::new(Vec::new()));
    let found = solve(sample(&log), method).map(|n| n.bound);
    let seen = log.borrow().clone();
    (found, seen)
}

#[test]
fn depth_first_visits_the_last_subproblem_first() {
    let (found, seen) = visits(TraverseMethod::DepthFirst);
    assert_eq!(found, Some(5));
    assert_eq!(seen, vec![8, 7, 6, 5]);
}

#[test]
fn breadth_first_visits_layer_by_layer() {
    let (found, seen) = visits(TraverseMethod::BreadthFirst);
    assert_eq!(found, Some(5));
    // leaf0 is reached when the incumbent scores 1 already, and is dropped.
    assert_eq!(seen, vec![8, 5, 7, 1, 4, 6, 2, 3, 4, 5]);
}

#[test]
fn best_first_visits_no_node_with_a_bound_below_5() {
    let (found, seen) = visits(TraverseMethod::Greedy);
    assert_eq!(found, Some(5));
    assert_eq!(seen, vec![8, 7, 6, 5]);
}

#[test]
fn custom_order_by_bound_visits_as_best_first_does() {
    let (found, seen) =
        visits(TraverseMethod::Custom { cmp: Box::new(ByBound), cmp_superceeds_bound: true });
    let (best_first_found, best_first_seen) = visits(TraverseMethod::Greedy);
    assert_eq!(found, best_first_found);
    assert_eq!(seen, best_first_seen);
}

#[test]
fn worst_first_does_not_stop_early() {
    let (found, seen) =
        visits(TraverseMethod::Custom { cmp: Box::new(WorstFirst), cmp_superceeds_bound: false });
    assert_eq!(found, Some(5));
    // Every node is visited but leaf0, which is left out when it is pushed:
    // the incumbent scores 3 by then.
    assert_eq!(seen, vec![8, 5, 1, 4, 2, 3, 7, 6, 4, 5]);
}

#[test]
fn worst_first_with_a_false_promise_stops_too_early() {
    // The flag is the caller's promise. Where it does not hold, the search
    // ends with a leaf that is not the best, and does not fail.
    let (found, seen) =
        visits(TraverseMethod::Custom { cmp: Box::new(WorstFirst), cmp_superceeds_bound: true });
    assert_eq!(seen, vec![8, 5, 1, 4, 2, 3, 7, 6, 4, 5]);
    assert_eq!(found, Some(5));
    let log = Rc::new(RefCell::new(Vec::new()));
    let tree = inner(9, vec![leaf(1, &log), leaf(1, &log), leaf(9, &log)], &log);
    let method: TraverseMethod<Box<dyn NodeOrder<Traced>>> =
        TraverseMethod::Custom { cmp: Box::new(WorstFirst), cmp_superceeds_bound: true };
    let found = solve(tree, method).map(|n| n.bound);
    // One leaf 1 is solved; the other is first then, and dominated: the search gives up
    // and never sees leaf 9.
    assert_eq!(found, Some(1));
    assert_eq!(*log.borrow(), vec![9, 1]);
}

#[test]
fn best_first_stops_at_the_first_dominated_node() {
    let log = Rc::new(RefCell::new(Vec::new()));
    let deep = inner(6, vec![inner(6, vec![leaf(2, &log)], &log)], &log);
    let tree = inner(7, vec![leaf(7, &log), deep, leaf(3, &log)], &log);
    let found = solve(tree, TraverseMethod::Greedy).map(|n| n.bound);
    assert_eq!(found, Some(7));
    // After leaf 7 is solved, the node of bound 6 is first and dominated.
    assert_eq!(*log.borrow(), vec![7, 7]);
}

#[test]
fn a_dead_end_contributes_nothing() {
    for variant in 0..4 {
        let with = Rc::new(RefCell::new(Vec::new()));
        let without = Rc::new(RefCell::new(Vec::new()));
        let tree_with = inner(
            9,
            vec![leaf(3, &with), dead_end(8, &with), inner(6, vec![leaf(6, &with), leaf(4, &with)], &with)],
            &with,
        );
        let tree_without = inner(
            9,
            vec![leaf(3, &without), inner(6, vec![leaf(6, &without), leaf(4, &without)], &without)],
            &without,
        );
        let method = |v| -> TraverseMethod<Box<dyn NodeOrder<Traced>>> {
            match v {
                0 => TraverseMethod::DepthFirst,
                1 => TraverseMethod::BreadthFirst,
                2 => TraverseMethod::Greedy,
                _ => TraverseMethod::Custom { cmp: Box::new(WorstFirst), cmp_superceeds_bound: false },
            }
        };
        let found_with = solve(tree_with, method(variant)).map(|n| n.bound);
        let found_without = solve(tree_without, method(variant)).map(|n| n.bound);
        assert_eq!(found_with, Some(6));
        assert_eq!(found_with, found_without);
        // But for the visit of the dead end itself, the walks are the same.
        let seen: Vec<i64> = with.borrow().iter().copied().filter(|b| *b != 8).collect();
        assert_eq!(seen, *without.borrow());
    }
}

#[test]
fn a_tree_without_leaves_gives_nothing() {
    let log = Rc::new(RefCell::new(Vec::new()));
    let tree = inner(9, vec![dead_end(5, &log), inner(7, vec![dead_end(7, &log)], &log)], &log);
    assert!(solve(tree, TraverseMethod::DepthFirst).is_none());
    assert_eq!(*log.borrow(), vec![9, 7, 7, 5]);
    let tree = dead_end(5, &log);
    assert!(solve(tree, TraverseMethod::DepthFirst).is_none());
    let tree = dead_end(5, &log);
    assert!(solve(tree, TraverseMethod::Greedy).is_none());
    let tree = dead_end(5, &log);
    assert!(solve(tree, TraverseMethod::BreadthFirst).is_none());
    let tree = dead_end(5, &log);
    let method: TraverseMethod<Box<dyn NodeOrder<Traced>>> =
        TraverseMethod::Custom { cmp: Box::new(WorstFirst), cmp_superceeds_bound: false };
    assert!(solve(tree, method).is_none());
}

#[test]
fn the_result_is_the_leaf_as_evaluation_left_it() {
    // A node that changes itself when it is solved.
    struct Counting {
        evaluated: u32,
    }
    impl Subproblem for Counting {
        type Children = std::vec::IntoIter<Counting>;

        fn bound_value(&self) -> i64 {
            unreachable!()
        }

        fn is_leaf(&self) -> bool {
            unreachable!()
        }

        fn objective(&self) -> i64 {
            unreachable!()
        }

        fn solution(&self) -> Self {
            unreachable!()
        }

        fn children(&self) -> Nodes<Self> {
            unreachable!()
        }

        fn height(&self) -> Height {
            unreachable!()
        }

        fn children_are_lower(&self) {}

        fn branch_or_evaluate(&mut self) -> SubproblemResolution<Self::Children, i64> {
            self.evaluated += 1;
            SubproblemResolution::Solved(1)
        }

        fn bound(&self) -> i64 {
            1
        }
    }
    let found = solve(Counting { evaluated: 0 }, TraverseMethod::DepthFirst).unwrap();
    assert_eq!(found.evaluated, 1);
}

#[test]
fn a_container_of_the_callers_own_is_followed() {
    // A stack that hands out at most two nodes, whatever it holds.
    struct Limited {
        nodes: Vec<Traced>,
        left: u32,
    }
    impl BnbAwareContainer<Traced> for Limited {
        type Model = ();

        fn well_formed(&self) -> bool {
            unreachable!()
        }

        fn model(&self) -> Self::Model {
            unreachable!()
        }

        fn weight(_m: Self::Model) -> Height {
            unreachable!()
        }

        fn holds(_m: Self::Model, _n: Traced) -> bool {
            unreachable!()
        }

        fn exhaustive(_m: Self::Model) -> bool {
            unreachable!()
        }

        fn after_push(_m: Self::Model, _item: Traced, _score: Option<i64>) -> Self::Model {
            unreachable!()
        }

        fn next(_m: Self::Model, _score: Option<i64>) -> Option<Traced> {
            unreachable!()
        }

        fn after_pop(_m: Self::Model, _score: Option<i64>) -> Self::Model {
            unreachable!()
        }

        fn push_law(_m: Self::Model, _item: Traced, _score: Option<i64>) {}

        fn pop_law(_m: Self::Model, _score: Option<i64>) {}

        fn push_with_incumbent(&mut self, item: Traced, _score: Option<&i64>) {
            self.nodes.push(item);
        }

        fn pop_with_incumbent(&mut self, _score: Option<&i64>) -> Option<Traced> {
            if self.left == 0 {
                return None;
            }
            self.left -= 1;
            self.nodes.pop()
        }
    }
    let log = Rc::new(RefCell::new(Vec::new()));
    let container = Limited { nodes: vec![sample(&log)], left: 2 };
    assert!(solve_with_container(container).is_none());
    assert_eq!(*log.borrow(), vec![8, 7]);
    let log = Rc::new(RefCell::new(Vec::new()));
    let container = Limited { nodes: vec![sample(&log)], left: 4 };
    assert_eq!(solve_with_container(container).map(|n| n.bound), Some(5));
    assert_eq!(*log.borrow(), vec![8, 7, 6, 5]);
}

#[test]
fn with_a_bound_that_is_too_low_a_dead_end_may_change_what_best_first_finds() {
    // A node with a bound and, if it is a leaf, a score of its own.
    struct Scored {
        bound: i64,
        score: Option<i64>,
        next: Vec<Scored>,
    }
    impl Subproblem for Scored {
        type Children = std::vec::IntoIter<Scored>;

        fn bound_value(&self) -> i64 {
            unreachable!()
        }

        fn is_leaf(&self) -> bool {
            unreachable!()
        }

        fn objective(&self) -> i64 {
            unreachable!()
        }

        fn solution(&self) -> Self {
            unreachable!()
        }

        fn children(&self) -> Nodes<Self> {
            unreachable!()
        }

        fn height(&self) -> Height {
            unreachable!()
        }

        fn children_are_lower(&self) {}

        fn branch_or_evaluate(&mut self) -> SubproblemResolution<Self::Children, i64> {
            match self.score {
                Some(score) => SubproblemResolution::Solved(score),
                None => SubproblemResolution::Branched(std::mem::take(&mut self.next).into_iter()),
            }
        }

        fn bound(&self) -> i64 {
            self.bound
        }
    }
    fn scored(bound: i64, score: i64) -> Scored {
        Scored { bound, score: Some(score), next: vec![] }
    }
    fn tree(with_dead_end: bool) -> Scored {
        // The first of the two leaves under bound 60 scores 100: its bound is too low.
        let mut below = vec![scored(60, 100), scored(60, 60)];
        if with_dead_end {
            below.insert(0, Scored { bound: 65, score: None, next: vec![] });
        }
        let parent = Scored { bound: 70, score: None, next: below };
        let next = vec![scored(10, 0), scored(90, 1), parent, scored(80, 2)];
        Scored { bound: 100, score: None, next }
    }
    // The two leaves of bound 60 are equal in the order. Without the dead end the second
    // is visited first, and the first is dominated then. With it the slots fall otherwise.
    assert_eq!(solve(tree(false), TraverseMethod::Greedy).unwrap().score, Some(60));
    assert_eq!(solve(tree(true), TraverseMethod::Greedy).unwrap().score, Some(100));
    // A stack and a queue do not care.
    assert_eq!(solve(tree(false), TraverseMethod::DepthFirst).unwrap().score, Some(60));
    assert_eq!(solve(tree(true), TraverseMethod::DepthFirst).unwrap().score, Some(60));
    assert_eq!(solve(tree(false), TraverseMethod::BreadthFirst).unwrap().score, Some(100));
    assert_eq!(solve(tree(true), TraverseMethod::BreadthFirst).unwrap().score, Some(100));
}
