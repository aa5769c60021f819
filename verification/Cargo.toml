[package]
name = "engine"
version = "0.1.0"
edition = "2021"
publish = false

[dependencies]
crossterm = "*"
thiserror = "*"
tokenizers = "*"
ort = { version = "2.0.0-rc.9", default-features = false, features = ["load-dynamic"] }
