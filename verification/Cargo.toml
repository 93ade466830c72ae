[package]
name = "wglib"
version = "0.1.0"
edition = "2021"
publish = false

[dependencies]
anyhow = "1"
base64 = "0.21"
crypto_box = { version = "0.8", features = ["std"] }
clap = { version = "4", features = ["derive"] }
sudo = "0.6"
sysctl = "0.5"
pnet = "0.34"
