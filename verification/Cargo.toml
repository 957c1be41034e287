[package]
name = "airfoil_panel"
version = "0.1.0"
edition = "2021"
publish = false

[dependencies]
csv = "1"
nalgebra = "*"
serde = { version = "1", features = ["derive"] }
