[package]
name = "sdfs"
version = "0.1.0"
edition = "2021"
publish = false

[dependencies]
rand = "0.8"
chrono = "0.4"
tokio = { version = "1", features = ["full"] }
tokio-util = "0.7"
prost = "0.13"
bytes = "1"
futures = "0.3"
hostname = "0.4"
local-ip-address = "0.6"
inquire = "0.7"
fd-lock = "4"
