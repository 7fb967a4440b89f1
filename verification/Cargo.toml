[package]
name = "soft"
version = "0.1.0"
edition = "2021"
publish = false

[dependencies]
app_dirs = "=1.2.1"
error-chain = "=0.12.4"
