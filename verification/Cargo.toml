[package]
name = "fluxgate"
version = "0.1.0"
edition = "2021"
publish = false

[dependencies]
siphasher = "*"
serde = { version = "*", features = ["derive"] }
serde_json = "*"
serde_yaml = "*"
indexmap = { version = "*", features = ["serde"] }
thiserror = "*"
