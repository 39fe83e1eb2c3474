//! Connect-Four move search: a verified board model, a windowed heuristic,
//! depth-bounded minimax with alpha-beta pruning, and Monte Carlo tree search.

pub mod board;
pub mod heuristic;
pub mod minimax;
pub mod rollout;
pub mod mcts;
pub mod exhaustive;
