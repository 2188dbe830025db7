[package]
name = "solver"
version = "0.1.0"
edition = "2021"
publish = false

[dependencies]
prost = "0.12"
serde = { version = "1", features = ["derive"] }
serde_json = "1"
tokio = { version = "1", features = ["macros", "rt-multi-thread"] }
tonic = "0.11"
