[package]
name = "router_authz"
version = "0.1.0"
edition = "2021"
publish = false

[dependencies]
jsonwebtoken = { version = "=11.1.0", features = ["rust_crypto"] }
serde_json = "=1.0.151"
http = "=1.5.0"
apollo-compiler = "=0.6.0"
