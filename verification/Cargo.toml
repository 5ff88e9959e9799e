[package]
name = "wg-dbusd"
version = "0.1.0"
edition = "2021"
publish = false

[dependencies]
anyhow = "1"
base64 = "0.22"
env_logger = "0.11"
hex = "0.4"
log = "0.4"
tokio = { version = "1", features = ["macros", "rt-multi-thread", "signal", "time"] }
wireguard-uapi = "3"
zbus = { version = "5", default-features = false, features = ["tokio"] }
