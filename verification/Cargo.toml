[package]
name = "touch_maze"
version = "0.1.0"
edition = "2021"
publish = false

[dependencies]
rand = "0.8"
embedded-graphics = "0.8"
log = "0.4"
anyhow = "1"
esp-idf-svc = { version = "*", default-features = false, features = ["std"] }
