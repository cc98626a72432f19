[package]
name = "repartee"
version = "0.1.0"
edition = "2021"
publish = false

[dependencies]
chrono = "=0.4.45"
serde_json = "=1.0.154"
crossterm = "=0.29.0"
image = "=0.25.10"
ratatui = "=0.30.2"
ratatui-image = { version = "=11.1.0", default-features = false, features = ["crossterm", "image-defaults"] }
tokio = { version = "=1.54.1", features = ["fs", "io-util", "rt", "sync", "time"] }
uuid = { version = "=1.29.0", features = ["v4"] }
vt100 = "=0.18.1"
