[package]
name = "loadbalancer"
version = "0.1.0"
edition = "2021"
publish = false

[dependencies]
metrohash = "1"
rand = "0.7"
twox-hash = "1"
