[package]
name = "mddem"
version = "0.1.0"
edition = "2021"
publish = false

[dependencies]
serde = { version = "1", features = ["derive"] }
toml = "0.8"
rand = "0.9"
rand_chacha = "0.9"
rand_distr = "0.5"
