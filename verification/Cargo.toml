[package]
name = "settings_guessr"
version = "0.1.0"
edition = "2021"
publish = false

[dependencies]
regex = "*"
serde = { version = "*", features = ["derive"] }
serde_json = "*"
atty = "*"
flatten-serde-json = "*"
