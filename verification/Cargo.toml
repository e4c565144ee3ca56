[package]
name = "phala-trie-storage"
version = "0.1.0"
edition = "2021"
publish = false

[dependencies]
anyhow = "1"
parity-scale-codec = { version = "3", features = ["derive"] }
tokio = { version = "1", features = ["rt-multi-thread", "sync", "macros", "time"] }
