[package]
name = "mallard"
version = "0.1.0"
edition = "2021"
publish = false

[dependencies]
crc32fast = "1"
md-5 = "0.10"
sha2 = "0.10"
encoding_rs = "0.8"
clap = { version = "4", features = ["derive"] }
