[package]
name = "editor_server"
version = "0.1.0"
edition = "2021"
publish = false

[dependencies]
axum = "*"
tower-http = { version = "*", features = ["trace"] }
