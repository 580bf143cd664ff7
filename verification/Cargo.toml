[package]
name = "transit_index"
version = "0.1.0"
edition = "2021"
publish = false

[dependencies]
ahash = "*"
axum = "*"
chrono = "*"
dotenv = "*"
gtfs-structures = "*"
serde = { version = "*", features = ["derive"] }
serde_json = "*"
tokio = { version = "*", features = ["rt-multi-thread", "macros", "net", "sync"] }
tower-http = { version = "*", features = ["cors"] }
