[package]
name = "ai_load_balancer"
version = "0.1.0"
edition = "2021"
publish = false

[dependencies]
log = "0.4"
proxy-wasm = "0.2"
