[package]
name = "d3_settings"
version = "0.1.0"
edition = "2021"
publish = false

[dependencies]
orbtk = "=0.3.1-alpha4"
serde = { version = "=1.0.229", features = ["derive"] }
