[package]
name = "streamjoin"
version = "0.1.0"
edition = "2021"
publish = false

[dependencies]
fixedbitset = "*"
