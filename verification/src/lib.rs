//! A generic branch-and-bound and backtracking search engine.
//!
//! A problem is described by a type that implements [`Subproblem`]: a node of
//! a search tree that either splits into further subproblems or resolves to a
//! score, together with an upper bound on every score that can be reached
//! below it. The engine looks for the leaf with the greatest score and skips
//! every subtree whose bound shows that it cannot beat the best leaf found so
//! far (the incumbent).
//!
//! [`solve`] walks the tree in one of the standard orders.
//! [`solve_with_container`] takes a container of the caller's choosing, which
//! decides the order of the walk and what is pruned.
//!
//! Every search is a mathematical function of the tree and of the container's
//! first state (`search::run`). The module `laws` proves what that function
//! finds: with bounds that are upper bounds, a leaf of the greatest score,
//! whatever the order of the walk. The module `dead_end` proves that a node
//! which branches into nothing changes no result.

pub mod bnb_aware_containers;
pub mod candidate;
pub mod candidate_order;
pub mod dead_end;
pub mod graph;
pub mod heap;
pub mod laws;
pub mod order;
pub mod priority;
pub mod search;
pub mod subproblem;
pub mod traverse;

pub use bnb_aware_containers::BnbAwareContainer;
pub use candidate::OrderedCandidate;
pub use order::{BoundOrder, NodeOrder, Reversed};
pub use priority::BinaryHeapExt;
pub use search::solve_with_container;
pub use subproblem::{Height, Nodes, Score, Subproblem, SubproblemResolution};
pub use traverse::{solve, solve_by, TraverseMethod};
