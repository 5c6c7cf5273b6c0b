[package]
name = "audio_engine"
version = "0.1.0"
edition = "2021"
publish = false

[dependencies]
log = "*"
simple_logger = "*"
