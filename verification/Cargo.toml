[package]
name = "courtroom"
version = "0.1.0"
edition = "2021"
publish = false

[dependencies]
console = "=0.16.6"
promkit = "0.4.6"
serde = { version = "=1.0.229", features = ["derive"] }
toml = "0.8.23"

[dev-dependencies]
regex = "=1.13.1"
