[package]
name = "mucli"
version = "1.0.0"
edition = "2021"
publish = false

[dependencies]
simplecrypt = "*"
rand = "0.8"
serde = { version = "1", features = ["derive"] }
serde_json = "1"
clap = { version = "4", features = ["cargo"] }
dialoguer = "0.11"
indicatif = "0.17"
dirs = "5"
custom_error = "1"
tokio = { version = "1", features = ["full"] }
reqwest = { version = "0.11", features = ["multipart"] }
zip = "0.6"
zip-extensions = "*"
termion = "2"
itertools = "*"
qrcode = "*"
base64-stream = "*"
ifcfg = "*"
wifiscanner = "*"
wifi-qr-code = "*"
