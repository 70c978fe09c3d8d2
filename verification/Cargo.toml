[package]
name = "fishy"
version = "0.1.0"
edition = "2021"
publish = false

[dependencies]
anyhow = "=1.0.104"
p2panda-rs = { version = "=0.7.1", features = ["test-utils"] }
topological-sort = "=0.2.2"
