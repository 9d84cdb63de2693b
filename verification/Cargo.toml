[package]
name = "differ"
version = "1.0.0"
edition = "2021"
publish = false

[dependencies]
serde = "1"
serde_derive = "1"
