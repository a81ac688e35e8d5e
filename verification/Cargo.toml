[package]
name = "resolution"
version = "0.1.0"
edition = "2021"
rust-version = "1.95"
publish = false

[dependencies]
pep440_rs = "=0.7.3"
uv-normalize = { version = ">=0.0.50, <=0.0.60", default-features = false }
uv-pypi-types = { version = ">=0.0.50, <=0.0.60", default-features = false }
