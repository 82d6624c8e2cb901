[package]
name = "alapi"
version = "0.1.0"
edition = "2021"
publish = false

[dependencies]
anyhow = "1"
cpal = "0.13"
crossbeam = "0.8"
ringbuf = "0.2"
rouille = "3"
serde = { version = "1", features = ["derive"] }
serde_derive = "1"
toml = "0.5"
