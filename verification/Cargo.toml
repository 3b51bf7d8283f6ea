[package]
name = "block_rmq"
version = "0.1.0"
edition = "2021"
publish = false

[dependencies]
smallvec = "1"
rkyv = { version = "0.7", features = ["validation"] }
bytecheck = "0.6"
rand = "0.8"
