[package]
name = "earworm"
version = "0.1.0"
edition = "2021"
publish = false

[dependencies]
blake3 = "=1.8.7"
getrandom = "=0.2.17"
time = { version = "=0.3.55", features = ["macros"] }
serde = { version = "=1.0.229", features = ["derive"] }
serde_json = "=1.0.154"
dirs = "=5.0.1"
hound = "=3.5.1"
arc-swap = "=1.9.3"
pitch-detection = "=0.3.0"
symphonia = { version = "=0.5.5", features = ["all"] }
rubato = "=0.15.0"
rusqlite = { version = "*", features = ["bundled"] }
