[package]
name = "simple_ping"
version = "0.1.0"
edition = "2021"
publish = false

[dev-dependencies]
shellwords = "=1.1.0"
