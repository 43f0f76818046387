[package]
name = "hyogen_ui"
version = "0.1.0"
edition = "2021"
publish = false

[dependencies]
serde_json = "*"
num-integer = "*"
wayland-client = "*"
smithay-client-toolkit = { version = "*", default-features = false }
tracing = "*"
tracing-subscriber = { version = "*", features = ["env-filter"] }
