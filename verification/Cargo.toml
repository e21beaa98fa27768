[package]
name = "document_metadata"
version = "0.1.0"
edition = "2021"
publish = false

[dependencies]
bezier-rs = "=0.5.0"
glam = "=0.29.3"
serde = { version = "=1.0.229", features = ["derive"] }
