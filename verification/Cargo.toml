[package]
name = "merkle_tree"
version = "0.1.0"
edition = "2021"
publish = false

[dependencies]
hex = "=0.4.3"
rand = { version = "=0.8.8", features = ["small_rng"] }
random_word = "=0.3.1"
