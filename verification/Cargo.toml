[package]
name = "serializeable"
version = "0.1.0"
edition = "2021"
publish = false

[dependencies]
nalgebra = { version = "*", default-features = false, features = ["std"] }
proc-macro2 = "1"
quote = "1"
syn = { version = "2", features = ["full"] }
tokio = { version = "1", features = ["io-util"] }
