[package]
name = "nano_nes_model_builder"
version = "0.1.0"
edition = "2021"
publish = false

[dependencies]
anyhow = "1"
libc = "0.2"
serde_json = "1"
sha2 = "0.10"
