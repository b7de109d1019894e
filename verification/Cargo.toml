[package]
name = "patzer"
version = "0.2.0"
edition = "2021"
publish = false

[dependencies]
cozy-chess = "0.3"
