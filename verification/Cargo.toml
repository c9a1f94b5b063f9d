[package]
name = "reaction_score"
version = "0.1.0"
edition = "2021"
publish = false

[dependencies]
risc0-zkvm = { version = "*", default-features = false, features = ["std"] }
serde = { version = "1", features = ["derive"] }
