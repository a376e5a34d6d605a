[package]
name = "chart_engine"
version = "0.1.0"
edition = "2021"
publish = false

[dependencies]
serde = { version = "1", features = ["derive"] }
serde_json = "1"
log = "0.4"
simple_logger = "1"
macroquad = "0.4"
rodio = "0.17"
image = "0.24"
fastblur = "*"
