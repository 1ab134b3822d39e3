[package]
name = "p2pvote"
version = "0.1.0"
edition = "2021"
publish = false

[dependencies]
num = "0.4"
rand = "0.8"
actix = { version = "0.8", default-features = false }
clap = "2.33"
csv = "1"
serde = { version = "1", features = ["derive"] }
env_logger = "0.7"
log = "0.4"
pbr = "1"
termion = "1"
generic-array = "0.14"
