[package]
name = "serial_link"
version = "0.1.0"
edition = "2021"
publish = false

[dependencies]
anyhow = "=1.0.104"
bitintr = "=0.3.0"
clap = { version = "=4.6.7", features = ["derive"] }
colored = "=2.2.0"
env_logger = "=0.11.11"
log = "=0.4.34"
tokio = { version = "=1.54.1", features = ["full"] }
tokio-serial = "=5.5.0"
