[package]
name = "qr_gen"
version = "0.1.0"
edition = "2021"
publish = false

[dependencies]
encoding_rs = "0.8"
image = "0.25"
rqrr = "0.10"
