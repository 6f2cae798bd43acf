[package]
name = "glrs"
version = "0.1.0"
edition = "2021"
publish = false

[dependencies]
chrono = { version = "0.4", features = ["serde"] }
serde = { version = "1", features = ["derive"] }
serde_derive = "1"
serde_json = "1"
libc = "0.2"
