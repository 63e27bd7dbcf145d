[package]
name = "grimbot"
version = "0.1.0"
edition = "2021"
publish = false

[dependencies]
rand = "0.8"
rustbreak = { version = "2", features = ["ron_enc"] }
serde = { version = "1", features = ["derive"] }
serde_derive = "1"
