[package]
name = "tsp_ga"
version = "0.1.0"
edition = "2021"
publish = false

[dependencies]
rand = "*"
csv = "*"
serde = { version = "*", features = ["derive"] }
structopt = "*"
