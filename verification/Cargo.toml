[package]
name = "tiddler_store"
version = "0.1.0"
edition = "2021"
publish = false

[dependencies]
actix-web = "4"
actix-files = "0.6"
actix-rt = "2"
actix-service = "2"
actix-web-httpauth = "0.8"
awc = "3"
env_logger = "0.11"
futures = "0.3"
lazy_static = "1"
log = "0.4"
mime = "0.3"
serde = { version = "1", features = ["derive"] }
serde_json = "1"
