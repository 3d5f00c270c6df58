[package]
name = "mjagari"
version = "0.1.0"
edition = "2021"
publish = false

[dependencies]
bitvec = "1"
arrayvec = "0.7"
