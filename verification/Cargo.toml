[package]
name = "pokers"
version = "0.1.0"
edition = "2021"
publish = false

[dependencies]
itertools = "*"
rand = "0.8"
rayon = "*"
serde = { version = "*", features = ["derive"] }
serde_json = "*"
tokio = { version = "*", features = ["rt-multi-thread", "macros", "sync", "net", "io-util"] }
tokio-tungstenite = "*"
futures-util = "*"
uuid = { version = "*", features = ["v4"] }
tracing = "*"
tracing-subscriber = "*"
