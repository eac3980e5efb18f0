[package]
name = "cosmic-radio"
version = "0.2.2"
edition = "2021"
publish = false

[dependencies]
toml = "0.8"
sha2 = "0.10"
serde = { version = "1", features = ["derive"] }
serde_json = "1"
reqwest = { version = "0.12", features = ["blocking"] }
dirs = "5.0"
tokio = { version = "1", features = ["rt"] }
futures = "0.3"
mpris-server = "*"
gstreamer = "0.23"
gstreamer-play = "0.23"
