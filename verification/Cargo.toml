[package]
name = "talent_plan"
version = "0.1.0"
edition = "2021"
publish = false

[dependencies]
rand = "=0.7.3"
serde = { version = "=1.0.229", features = ["derive"] }
serde_json = "=1.0.154"
clap = "=2.34.0"
crossbeam = "=0.8.5"
crossbeam-skiplist = "=0.1.3"
sled = "0.34"
