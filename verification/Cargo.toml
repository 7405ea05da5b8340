[package]
name = "logix"
version = "0.1.0"
edition = "2021"
publish = false

[dependencies]
anyhow = "1"
clap = { version = "4", features = ["derive"] }
colorize = "0.1"
flate2 = "1"
tar = "0.4"
xz2 = "0.1"
zstd = "0.13"
