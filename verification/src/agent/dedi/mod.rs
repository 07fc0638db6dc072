pub mod bit_set;
pub mod walls;
