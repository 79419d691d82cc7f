[package]
name = "libfqcat"
version = "0.1.0"
edition = "2021"
publish = false

[dependencies]
clap = { version = "4", features = ["derive"] }
flate2 = "1"
glob = "0.3"
zstd = "0.13"
