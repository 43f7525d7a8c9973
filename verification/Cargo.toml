[package]
name = "codegraide"
version = "0.1.0"
edition = "2021"
publish = false

[dependencies]
petgraph = "*"
regex = "*"
semver = "*"
serde = { version = "*", features = ["derive"] }
serde_json = "*"
ignore = "*"
