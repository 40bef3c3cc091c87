[package]
name = "lakecat"
version = "0.1.0"
edition = "2021"
publish = false

[dependencies]
rocksdb = "*"
uuid = { version = "*", features = ["v4"] }
urlencoding = "*"
axum = "*"
tokio = { version = "*", features = ["rt-multi-thread", "net", "macros"] }
serde = { version = "*", features = ["derive"] }
serde_json = "*"
dotenv = "*"

[dev-dependencies]
tempfile = "*"
