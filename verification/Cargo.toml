[package]
name = "lanchat"
version = "0.1.0"
edition = "2021"
publish = false

[dependencies]
tokio = { version = "=1.53.2", features = ["rt-multi-thread", "net", "macros"] }
async-channel = "=2.5.0"
futures = "=0.3.31"
anyhow = "1"
socket2 = { version = "=0.5.10", features = ["all"] }
termion = "=4.0.6"
chrono = "=0.4.45"

[dev-dependencies]
serde_json = "1"
