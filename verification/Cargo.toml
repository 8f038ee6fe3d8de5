[package]
name = "engine"
version = "0.1.0"
edition = "2021"
publish = false

[dependencies]
rand = "0.8"
indexmap = "2"
hashbrown = "0.14"
serde = { version = "1", features = ["derive"] }
bincode = "1"
thiserror = "1"
log = "0.4"
