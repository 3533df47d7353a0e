[package]
name = "fsrs_binding"
version = "0.1.0"
edition = "2021"
publish = false

[dependencies]
fsrs = "*"
csv = "*"
serde = { version = "*", features = ["derive"] }
serde_json = "*"
time = "*"
