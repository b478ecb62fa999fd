[package]
name = "ergo"
version = "0.1.0"
edition = "2021"
publish = false

[dependencies]
log = "0.3"
rand = "0.4"
time = "0.1"
