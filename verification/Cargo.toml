[package]
name = "zsync"
version = "0.1.0"
edition = "2021"
publish = false

[dependencies]
fnv = "=1.0.7"
md4 = "=0.8.0"
snafu = "=0.9.2"
