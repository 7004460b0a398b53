[package]
name = "shelve"
version = "0.1.0"
edition = "2021"
publish = false

[dependencies]
inquire = "*"
serde = { version = "1", features = ["derive"] }
toml = "*"
