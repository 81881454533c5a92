[package]
name = "bpm_object"
version = "0.1.0"
edition = "2021"
publish = false

[dependencies]
midly = "0.5"
anyhow = "1"
tracing = "0.1"
aviutl2 = "*"
