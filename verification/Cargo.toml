[package]
name = "tavern"
version = "0.1.0"
edition = "2021"
publish = false

[dependencies]
rand = "=0.4.6"
pad = "=0.1.6"
