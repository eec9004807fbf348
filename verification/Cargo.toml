[package]
name = "bloqueador_web"
version = "0.1.0"
edition = "2021"
publish = false

[dependencies]
anyhow = "1"
chrono = { version = "0.4", features = ["serde"] }
libc = "0.2"
log = "0.4"
serde = { version = "1", features = ["derive"] }
simplelog = "0.12"
toml = "0.8"
