[package]
name = "wpilog_reader"
version = "0.1.0"
edition = "2021"
publish = false

[dependencies]
serde_json = "1"
