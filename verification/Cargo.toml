[package]
name = "amazons"
version = "0.1.0"
edition = "2021"
publish = false

[dependencies]
queues = "1"
rand = "0.7"
