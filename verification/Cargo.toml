[package]
name = "metta_on_mork"
version = "0.1.0"
edition = "2021"
publish = false

[dependencies]
pathmap = { version = "=0.2.2", default-features = false }
rayon = "=1.12.0"
