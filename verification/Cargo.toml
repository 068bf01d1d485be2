[package]
name = "neutrino_ble"
version = "0.1.0"
edition = "2021"
publish = false

[dependencies]
rustls = { version = "0.23", default-features = false, features = ["ring", "std"] }
tokio = { version = "1", features = ["rt", "sync", "time", "macros"] }
atomic-waker = "1"
tracing = "0.1"
ndk-context = "0.1"
jni = "*"
