[package]
name = "dupt"
version = "0.1.0"
edition = "2021"
publish = false

[dependencies]
ansi_term = "0.12"
flate2 = "1"
tar = "0.4"
termsize = "0.1"
