[package]
name = "bptree"
version = "0.1.0"
edition = "2021"
publish = false

[dependencies]
serde = { version = "1", features = ["derive"] }
bincode = "1"
thiserror = "1"
async-trait = "0.1"

[dev-dependencies]
rand = "0.8"
