[package]
name = "metrowrap"
version = "0.1.0"
edition = "2021"
publish = false

[dependencies]
regex = "1"
unescape = "0.1"
encoding_rs = "0.8"
encoding_rs_io = "0.1"
tempfile = "3"
clap = { version = "4", features = ["derive"] }
