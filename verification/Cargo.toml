[package]
name = "wraithflow"
version = "0.1.0"
edition = "2021"
publish = false

[dependencies]
base64 = "=0.22.1"
chrono = "=0.4.45"
clap = { version = "4", features = ["derive"] }
colored_json = "=5.0.0"
crossterm = "=0.28.1"
cybercore = "=0.8.2"
ratatui = "=0.29.0"
serde = { version = "1", features = ["derive"] }
serde_json = { version = "=1.0.154", features = ["preserve_order"] }
tokio = { version = "1", features = ["full"] }
tokio-util = { version = "0.7", features = ["rt"] }
toml = "0.8"
tracing = "0.1"
tracing-subscriber = { version = "0.3", features = ["env-filter"] }
