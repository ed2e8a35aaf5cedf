[package]
name = "ubiquitous-variant-identifier"
version = "0.1.0"
edition = "2021"
publish = false

[dependencies]
anyhow = "=1.0.104"
rust-htslib = { version = "=0.38.2", default-features = false }
structopt = "=0.3.26"
