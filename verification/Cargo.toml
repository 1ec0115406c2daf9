[package]
name = "pub_sub"
version = "0.1.0"
edition = "2021"
publish = false

[dependencies]
async-std = "*"
bytes = "*"
parking_lot = "*"
