[package]
name = "fluorite"
version = "0.1.0"
edition = "2021"
publish = false

[dependencies]
rust_decimal = "1"
rand = "0.8"
argh = "0.1"
serde = { version = "1", features = ["derive"] }
