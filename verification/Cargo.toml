[package]
name = "walkie_talkie_engine"
version = "0.1.0"
edition = "2021"
publish = false

[dependencies]
android_logger = "*"
byteorder = "*"
crossbeam-channel = "*"
log = "*"
oboe = "*"
opus-codec = "*"
thiserror = "*"
uniffi = "*"
