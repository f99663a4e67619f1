[package]
name = "matecito"
version = "0.1.0"
edition = "2021"
publish = false

[dependencies]
parking_lot = "=0.11.2"
twox-hash = "=1.6.3"
