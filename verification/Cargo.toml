[package]
name = "lockwatch"
version = "0.1.0"
edition = "2021"
publish = false

[dependencies]
serde_json = { version = "=1.0.154", features = ["float_roundtrip"] }
pgrx = { version = "=0.18.1", features = ["pg17"] }
