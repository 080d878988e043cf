[package]
name = "egui_logger"
version = "0.1.0"
edition = "2021"
publish = false

[dependencies]
chrono = "*"
regex = "*"
serde = { version = "*", features = ["derive"] }
egui = { version = "*", default-features = false }
