pub mod board;
pub mod buffer;
pub mod bfs;
pub mod mcts;
