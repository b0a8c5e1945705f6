[package]
name = "patch_stream"
version = "0.1.0"
edition = "2021"
publish = false

[dependencies]
serde_json = "=1.0.154"
futures = "=0.3.34"
rquickjs = { version = "=0.11.0", features = ["futures"] }
wit-bindgen = { version = "=0.54.0", features = ["async-spawn"] }
