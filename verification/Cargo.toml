[package]
name = "starknet_codec"
version = "0.1.0"
edition = "2021"
publish = false

[dependencies]
starknet = "0.9"
url = "*"
regex = "*"
async-trait = "*"
anyhow = "*"
num-bigint = "*"
num-traits = "*"
