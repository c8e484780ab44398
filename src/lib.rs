//! A Sokoban solver: static level analysis, push generation with deadlock
//! pruning, a lower-bound heuristic and a best-first search over states.
pub mod board;
pub mod search;
