[package]
name = "fracture"
version = "0.1.0"
edition = "2021"
publish = false

[dependencies]
half = "2"
rand = "0.8"
serde = { version = "1", features = ["derive"] }
thiserror = "2"
tokio = { version = "1", features = ["macros", "net", "rt", "sync", "time"] }
tracing = "0.1"
