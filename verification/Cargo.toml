[package]
name = "heavy_hitters"
version = "0.1.0"
edition = "2021"
publish = false

[dependencies]
actix-cors = "*"
actix-web = "*"
backtrace = "*"
cadence = "*"
futures = "*"
futures-util = "*"
serde = { version = "*", features = ["derive"] }
serde_json = "*"
thiserror = "*"
