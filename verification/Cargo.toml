[package]
name = "haversine_core"
version = "0.1.0"
edition = "2021"
publish = false

[dependencies]
clap = { version = "4", features = ["derive"] }
libc = "0.2"
once_cell = "1"
rand = { version = "0.9", features = ["small_rng"] }
serde = { version = "1", features = ["derive"] }
serde_json = "1"
