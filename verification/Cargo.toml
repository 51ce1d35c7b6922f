[package]
name = "evm_decode"
version = "0.1.0"
edition = "2021"
publish = false

[dependencies]
num-bigint = "0.4"
hex = "0.4"
serde = { version = "1", features = ["derive"] }
serde_json = "1"
reqwest = { version = "0.12", default-features = false, features = ["json"] }
tokio = { version = "1", features = ["rt-multi-thread", "macros"] }
anyhow = "1"
