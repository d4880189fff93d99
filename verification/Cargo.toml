[package]
name = "brindle"
version = "0.1.0"
edition = "2021"
publish = false

[dependencies]
pgrx = { version = "0.12", features = ["pg17"] }
