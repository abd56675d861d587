[package]
name = "remoshot"
version = "0.1.0"
edition = "2021"
publish = false

[dependencies]
hex = "*"
hmac = "*"
sha2 = "*"
rand = "*"
uuid = { version = "*", features = ["v4"] }
tokio = { version = "*", features = ["rt-multi-thread", "macros", "net", "fs", "time", "sync"] }
axum = { version = "*", features = ["ws"] }
tower-http = { version = "*", features = ["fs"] }
futures-util = "*"
chrono = "*"
clap = { version = "*", features = ["derive"] }
dialoguer = "*"
tracing = "*"
tracing-subscriber = { version = "*", features = ["env-filter"] }
