//! State-space explorer for a column-drop connection game: boards with a mirror-canonical
//! form, an arena of positions with a transposition map, depth-bounded exploration, marking
//! of the positions that lead to a win or to a given board, and compaction of the arena.
pub mod board;
pub mod node;
pub mod outcome;
pub mod prune;
pub mod tree;

pub use board::{empty_board, Board, ColumnFull, Player, HEIGHT, WIDTH};
pub use node::{GameNode, StateIndex};
pub use outcome::Result;
pub use tree::Tree;
