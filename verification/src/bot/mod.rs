pub mod abe;
pub mod carlo;
pub mod dedi;
pub mod monte;
