[package]
name = "memo_core"
version = "0.1.0"
edition = "2021"
publish = false

[dependencies]
difference = "=2.0.0"
uuid = "=1.29.0"

[dev-dependencies]
rand = "0.4"
