[package]
name = "artemis"
version = "0.1.0"
edition = "2021"
publish = false

[dependencies]
serde = { version = "1", features = ["derive"] }
serde_json = "1"
bincode = "1"
futures = "0.3"
async-trait = "0.1"
parking_lot = "0.12"
stable-vec = "0.4"
tokio = { version = "1", default-features = false, features = ["rt", "macros", "time"] }
reqwest = { version = "0.11", default-features = false, features = ["json"] }
