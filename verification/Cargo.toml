[package]
name = "mqtt_core"
version = "0.1.0"
edition = "2021"
publish = false

[dependencies]
bytes = "1"
fixedbitset = "*"
tokio-util = { version = "0.7", default-features = false, features = ["codec"] }
