[package]
name = "round_eliminator"
version = "0.1.0"
edition = "2021"
publish = false

[dependencies]
serde = { version = "1", features = ["derive"] }
itertools = "*"
chashmap = "*"
