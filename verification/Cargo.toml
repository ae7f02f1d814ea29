[package]
name = "erasure_engine"
version = "0.1.0"
edition = "2021"
publish = false

[dependencies]
rand = "0.3"
time = "0.1"

[dev-dependencies]
reed-solomon-erasure = "*"
