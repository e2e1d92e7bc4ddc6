[package]
name = "field_fft"
version = "0.1.0"
edition = "2021"
publish = false

[dependencies]
pairing_ce = "*"
