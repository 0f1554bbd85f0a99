[package]
name = "simulation"
version = "0.1.0"
edition = "2021"
publish = false

[dependencies]
rand = "0.9"
weighted_rand = "*"
serde_json = "1"
chrono = "0.4"
