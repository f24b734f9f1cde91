[package]
name = "remote_hub"
version = "0.1.0"
edition = "2021"
publish = false

[dependencies]
rand = "=0.8.8"
serde_json = "=1.0.151"
futures = "=0.3.34"
bytes = "=1.12.1"
actix = "=0.13.5"
actix-rt = "=2.15.0"
actix-codec = "=0.5.4"
actix-web = { version = "=4.15.0", default-features = false, features = ["macros", "ws"] }
actix-web-actors = "=4.3.1"
awc = { version = "=3.8.2", default-features = false }
