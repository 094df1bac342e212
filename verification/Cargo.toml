[package]
name = "swap_and_match"
version = "0.1.0"
edition = "2021"
publish = false

[dependencies]
bitvec = "1"
enumset = { version = "1", features = ["serde"] }
serde = { version = "1", features = ["derive"] }
