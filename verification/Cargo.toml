[package]
name = "bg_coor"
version = "0.1.0"
edition = "2021"
publish = false

[dependencies]
uuid = { version = "*", features = ["v4"] }
chrono = "*"
redis = { version = "*", features = ["tokio-comp"] }
tokio = { version = "*", features = ["rt-multi-thread", "sync", "time", "macros"] }
async-trait = "*"
serde_json = "*"
tracing = "*"
