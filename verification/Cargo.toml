[package]
name = "constellation"
version = "0.1.0"
edition = "2021"
publish = false

[dependencies]
rustc-hash = "2"
rmcp = { version = "*", features = ["server", "macros", "transport-io", "schemars"] }
schemars = "*"
serde = { version = "1", features = ["derive"] }
thiserror = "2"
tokio = { version = "1", features = ["rt", "rt-multi-thread", "macros"] }
