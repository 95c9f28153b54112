[package]
name = "feuer"
version = "0.1.0"
edition = "2021"
publish = false

[dependencies]
bytes = "1"
rustc-hash = "2"
parking_lot = "0.12"
mixtrics = "*"
tokio = { version = "1", features = ["rt", "rt-multi-thread", "sync", "macros"] }
tracing = "0.1"
fs4 = "0.13"
clap = { version = "4", features = ["derive"] }
thiserror = "2"
foyer-memory = "*"
