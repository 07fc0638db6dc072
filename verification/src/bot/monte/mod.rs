pub mod monte;
