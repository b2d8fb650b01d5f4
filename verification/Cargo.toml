[package]
name = "avail_light"
version = "0.1.0"
edition = "2021"
publish = false

[dependencies]
libp2p = { version = "*", default-features = false, features = ["kad"] }
serde = { version = "*", features = ["derive"] }
serde_json = "*"
