[package]
name = "pulz"
version = "0.1.0"
edition = "2021"
publish = false

[dependencies]
ash = "0.38"
gpu-alloc = "0.6"
thiserror = "1"
tracing = "0.1"
