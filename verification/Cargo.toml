[package]
name = "catan"
version = "0.1.0"
edition = "2021"
publish = false

[dependencies]
axum = "0.6"
fastly = "*"
serde = { version = "1", features = ["derive"] }
