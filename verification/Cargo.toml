[package]
name = "dns_fanout"
version = "0.1.0"
edition = "2021"
publish = false

[dependencies]
c-ares = "*"
c-ares-resolver = "*"
futures = "*"
getopts = "*"
indicatif = "*"
tokio = { version = "*", features = ["rt-multi-thread", "macros"] }
yaml-rust = "*"
