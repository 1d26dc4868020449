[package]
name = "tmpfiles"
version = "0.1.0"
edition = "2021"
publish = false

[dependencies]
camino = "1"
cap-std-ext = "4"
rustix = { version = "1", features = ["fs", "process"] }
thiserror = "2"
uzers = "0.12"
