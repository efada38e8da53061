[package]
name = "skitgubbe_game"
version = "0.1.0"
edition = "2021"
publish = false

[dependencies]
rand = "*"
axum = { version = "*", features = ["ws"] }
tokio = { version = "*", features = ["rt-multi-thread", "macros", "net", "sync"] }
futures = "*"
futures-util = "*"
tower-http = { version = "*", features = ["cors"] }
uuid = { version = "*", features = ["v4"] }
