[package]
name = "clickhouse"
version = "0.1.0"
edition = "2021"
publish = false

[dependencies]
bytes = "1"
bstr = "1"
futures-channel = { version = "0.3", features = ["sink"] }
futures-util = { version = "0.3", default-features = false, features = ["sink"] }
hyper = "1"
