[package]
name = "vsdb"
version = "0.1.0"
edition = "2021"
publish = false

[dependencies]
sled = "0.34"
serde = { version = "1", features = ["derive"] }
bincode = "1"
once_cell = "*"
parking_lot = "*"
ruc = "*"
