[package]
name = "naga_prune"
version = "0.1.0"
edition = "2021"
publish = false

[dependencies]
naga = { version = "0.10", features = ["wgsl-in", "wgsl-out", "validate", "clone"] }
tracing = "0.1"
