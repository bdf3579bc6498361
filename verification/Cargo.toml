[package]
name = "ambients"
version = "0.1.0"
edition = "2021"
publish = false

[dependencies]
cid = "0.5"
multihash = "0.11"
ratel = "0.7"
