pub mod alpha_beta;
pub mod heuristic;
pub mod move_ordering;
