pub mod dedi;
pub mod random;
