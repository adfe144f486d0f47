[package]
name = "subparse"
version = "0.1.0"
edition = "2021"
publish = false

[dependencies]
vobsub = "*"
encoding_rs = "*"
