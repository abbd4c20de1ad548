[package]
name = "mordant"
version = "0.1.0"
edition = "2021"
publish = false

[dependencies]
clippy_utils = "*"
dylint_linting = "*"
serde = { version = "1", features = ["derive"] }
toml = "*"
