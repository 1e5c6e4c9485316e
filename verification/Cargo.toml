[package]
name = "loom"
version = "0.1.0"
edition = "2021"
publish = false

[dependencies]
rust-crypto = "0.2.36"
rand = "0.4"
serde = { version = "1", features = ["derive"] }
serde_json = "1"
getopts = "0.2"
rpassword = "5"
data-encoding = "2"
aes = "*"
