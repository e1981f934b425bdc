[package]
name = "oxyde"
version = "0.1.0"
edition = "2021"
publish = false

[dependencies]
env_logger = "*"
indicatif = "*"
jemalloc-ctl = "*"
jemallocator = "*"
magnus = "*"
mysql = "*"
once_cell = "*"
pretty-bytes = "*"
