[package]
name = "peekaboo"
version = "0.1.0"
edition = "2021"
publish = false

[dependencies]
ring = "*"
image = "*"
actix-web = "*"
actix-files = "*"
actix-multipart = "*"
tokio = { version = "*", features = ["fs", "io-util"] }
futures = "*"
futures-util = "*"
serde = { version = "*", features = ["derive"] }
serde_json = "*"
serde_yaml = "*"
chrono = "*"
lazy_static = "*"
log = "*"
log4rs = "*"
sanitize-filename = "*"
