[package]
name = "energy_model_visualizer"
version = "0.1.0"
edition = "2021"
publish = false

[dependencies]
arrow-ipc = { version = "=60.0.0", default-features = false }
once_cell = "=1.21.4"
serde = { version = "=1.0.229", features = ["derive"] }
thiserror = "=1.0.69"
