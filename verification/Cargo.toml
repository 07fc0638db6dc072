[package]
name = "quoridor"
version = "0.1.0"
edition = "2021"
publish = false

[dependencies]
priority-queue = "=2.7.0"
arrayvec = "=0.7.8"
clap = { version = "=4.6.7", features = ["derive"] }
rand = "=0.9.5"
ctrlc = "=3.5.2"
rayon = "1"
