[package]
name = "sfsb"
version = "0.1.0"
edition = "2021"
publish = false

[dependencies]
askama = "*"
axum = "*"
camino = "*"
chrono = "*"
clap = { version = "*", features = ["derive", "env"] }
color-eyre = "*"
notify = "*"
notify-debouncer-full = "*"
parking_lot = "*"
serde = { version = "*", features = ["derive"] }
tokio = { version = "*", features = ["full"] }
tokio-util = { version = "*", features = ["io"] }
tracing = "*"
tracing-subscriber = { version = "*", features = ["env-filter"] }
url = "*"
