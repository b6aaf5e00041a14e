[package]
name = "hamming"
version = "0.1.0"
edition = "2021"

[dependencies]
colored = "2"
encoding_rs = "0.8"
rand = "0.8"
