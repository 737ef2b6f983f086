[package]
name = "calendar_lib"
version = "0.1.0"
edition = "2021"
publish = false

[dependencies]
chrono = { version = "*", features = ["serde", "clock"] }
serde = { version = "*", features = ["derive"] }
serde_json = "*"
clap = { version = "*", features = ["derive"] }
icalendar = "*"
log = "*"
env_logger = "*"

[dev-dependencies]
rand = "*"
