[package]
name = "fixed_size_lru_map"
version = "0.1.0"
edition = "2021"
publish = false

[dependencies]
parking_lot = "*"
