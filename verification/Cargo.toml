[package]
name = "rrc-core"
version = "0.1.0"
edition = "2021"
publish = false

[dependencies]
image = { version = "0.25", default-features = false, features = ["png", "jpeg"] }
thiserror = "2"
clap = { version = "4", features = ["derive"] }
owo-colors = "4"
napi = "2"
napi-derive = "2"
uniffi = "0.28"
