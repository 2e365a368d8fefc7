//! Monte-Carlo tree search over two-outcome games, with tic-tac-toe rules to search on.

pub mod game;
pub mod node;
pub mod random;
pub mod engine;
pub mod text;
pub mod tictactoe;
pub mod ultimate;
