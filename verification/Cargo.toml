[package]
name = "aplorandom"
version = "0.1.0"
edition = "2021"
publish = false

[dependencies]
aes = "0.8"
md5 = "0.7"
num-bigint = "0.4"
sha2 = "0.10"
