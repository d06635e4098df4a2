[package]
name = "fileflow"
version = "0.1.0"
edition = "2021"
publish = false

[dependencies]
anyhow = "1"
blake3 = { version = "1", features = ["pure"] }
chrono = { version = "0.4", features = ["serde"] }
clap = { version = "4", features = ["derive"] }
hex = "0.4"
serde = { version = "1", features = ["derive"] }
serde_json = "1"
sqlite = { version = "*", features = ["bundled"] }
thiserror = "1"
tokio = { version = "1", features = ["rt-multi-thread", "macros", "time"] }
walkdir = "2"
