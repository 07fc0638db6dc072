pub mod walls;
pub mod minimax;
pub mod heuristic;
