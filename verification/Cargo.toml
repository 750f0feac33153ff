[package]
name = "ai_training"
version = "0.1.0"
edition = "2021"
publish = false

[dependencies]
regex = "1"
rand = "0.8"
anyhow = "1"
serde = { version = "1", features = ["derive"] }
serde_json = "1"
walkdir = "2"
clap = { version = "4", features = ["derive"] }
burn = { version = "0.20.1", default-features = false, features = ["ndarray", "autodiff"] }
burn-core = { version = "0.20.1", default-features = false, features = ["std"] }
image = { version = "0.25", default-features = false, features = ["png"] }
ab_glyph = "0.2"
