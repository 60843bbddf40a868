[package]
name = "macchinine"
version = "0.1.0"
edition = "2021"
publish = false

[dependencies]
bincode = { version = "=2.0.1", features = ["derive"] }
bluer = { version = "0.16", features = ["bluetoothd"] }
btleplug = "=0.11.8"
colored = "2"
env_logger = "=0.11.11"
futures = "=0.3.34"
image = { version = "0.24", default-features = false, features = ["png", "jpeg"] }
log = "=0.4.35"
once_cell = "=1.21.4"
pollster = "=0.3.0"
thiserror = "=1.0.69"
tokio = { version = "=1.54.1", features = ["full"] }
uuid = "=1.29.0"
