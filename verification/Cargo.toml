[package]
name = "lru_sim"
version = "0.1.0"
edition = "2021"
publish = false

[dependencies]
rand = "=0.9.5"

[dev-dependencies]
winnow = "0.7"
