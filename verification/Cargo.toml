[package]
name = "yatzy_tables"
version = "0.1.0"
edition = "2021"
publish = false

[dependencies]
rand = "0.8"
num-integer = "0.1"
crossbeam-channel = "0.5"
num_cpus = "1"
num-traits = "0.2"
bincode = "1"
serde = { version = "1", features = ["derive"] }
