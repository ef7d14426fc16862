[package]
name = "dag"
version = "0.1.0"
edition = "2021"
publish = false

[dependencies]
ring = "*"
hex = "*"
uuid = { version = "*", features = ["v4"] }
chrono = "*"
serde = { version = "*", features = ["derive"] }
serde_json = "*"
petgraph = "*"
clap = { version = "*", features = ["derive"] }
dotenv = "*"
rand = "*"
