[package]
name = "e57"
version = "0.11.5"
edition = "2021"
publish = false

[dependencies]
crc = "3"
roxmltree = "0.20"
