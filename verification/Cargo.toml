[package]
name = "bytelex"
version = "0.1.0"
edition = "2021"
publish = false
