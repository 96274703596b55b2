[package]
name = "neural_net"
version = "0.1.0"
edition = "2021"
publish = false

[dependencies]
csv = "1"
ndarray = "0.15"
ndarray-rand = "0.14"
zip = { version = "0.6", default-features = false, features = ["deflate"] }
