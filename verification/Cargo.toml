[package]
name = "routing_engine"
version = "0.1.0"
edition = "2021"
publish = false

[dependencies]
alloy-primitives = { version = "1", features = ["serde"] }
axum = "0.7"
chrono = "0.4"
dashmap = "6"
parking_lot = "0.12"
petgraph = "0.6"
rayon = "1"
serde = { version = "1", features = ["derive"] }
thiserror = "1"
tokio = { version = "1", features = ["full"] }
tower-http = { version = "0.5", features = ["cors", "trace"] }
tracing = "0.1"
tracing-subscriber = { version = "0.3", features = ["env-filter"] }
