[package]
name = "modbus_poller"
version = "0.1.0"
edition = "2021"
publish = false

[dependencies]
chrono = "*"
miniserde = "*"
tokio = { version = "1", features = ["rt-multi-thread", "time"] }
tokio-modbus = { version = "*", default-features = false, features = ["tcp"] }
