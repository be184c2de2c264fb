[package]
name = "board_broker"
version = "0.1.0"
edition = "2021"
publish = false

[dependencies]
rand = "*"
tokio = { version = "*", features = ["rt-multi-thread", "macros", "sync", "time", "net"] }
axum = { version = "*", features = ["ws"] }
serde = { version = "*", features = ["derive"] }
serde_cbor = "*"
futures-util = "*"
reqwest = { version = "*", default-features = false }
