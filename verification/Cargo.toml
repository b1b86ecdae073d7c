[package]
name = "hm"
version = "0.10.0"
edition = "2021"
publish = false

[dependencies]
sys-info = "0.9"
console = "0.15"
indicatif = "0.17"
log = "0.4"
simplelog = "0.12"
chrono = "0.4"
dirs = "5"
serde = { version = "1", features = ["derive"] }
toml = "0.8"
shellexpand = "3"
symlink = "0.1"
lazy_static = "1.4"
