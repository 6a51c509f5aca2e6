[package]
name = "qmbed"
version = "0.1.0"
edition = "2021"
publish = false

[dependencies]
faer = "*"
nalgebra = "*"
num-bigint = "0.4"
num-complex = "0.4"
serde = { version = "1", features = ["derive"] }
serde_json = "1"
smallvec = "1"
thiserror = "2"
zip = { version = "*", default-features = false, features = ["deflate"] }
