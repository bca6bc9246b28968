[package]
name = "morphiic"
version = "0.1.0"
edition = "2021"
publish = false

[dependencies]
anyhow = "=1.0.104"
critical-section = { version = "=1.2.0", features = ["std"] }
embassy-executor = "0.9"
embassy-futures = "0.1"
embassy-rp = { version = "0.8", features = ["rp2040", "time-driver"] }
embassy-sync = "0.7"
embassy-time = "0.5"
embassy-usb = { version = "0.5", default-features = false }
heapless = "=0.8.0"
serde = { version = "=1.0.229", features = ["derive"] }
serde_json = "=1.0.154"
serialport = { version = "=4.10.1", default-features = false }
smart-leds = "0.4"
static_cell = "2"
