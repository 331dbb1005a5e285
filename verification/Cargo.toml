[package]
name = "netsim"
version = "0.1.0"
edition = "2021"
publish = false

[dependencies]
boa_engine = "0.16"
serde_json = "1"
uuid = { version = "1", features = ["v4"] }
