//! Game-tree search over flattened trees: principal variation search with a
//! history heuristic, and the tree structures of Monte Carlo Tree Search and
//! tabular SARSA.

pub mod game;
pub mod interner;
pub mod mcts;
pub mod pvs;
pub mod sarsa;

pub use crate::game::GameState;
pub use crate::interner::Interner;
pub use crate::mcts::{Mcts, Node};
pub use crate::pvs::search;
pub use crate::sarsa::{Sarsa, SarsaNode};
