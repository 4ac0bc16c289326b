[package]
name = "subtitle_fast"
version = "0.1.0"
edition = "2021"
publish = false

[dependencies]
sha2 = "=0.10.9"
hex = "=0.4.3"
image = { version = "=0.25.10", default-features = false, features = ["png", "jpeg", "webp"] }
clap = { version = "=4.6.7", features = ["derive"] }
serde = { version = "=1.0.229", features = ["derive"] }
serde_json = "=1.0.154"
reqwest = { version = "*", default-features = false, features = ["blocking"] }
directories = "*"
