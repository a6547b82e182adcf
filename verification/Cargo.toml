[package]
name = "cdoc"
version = "0.1.0"
edition = "2021"
publish = false

[dependencies]
zerocopy = "0.8"
crc32fast = "1"
ciborium = "0.2"
fastrand = "2"
memmap2 = "0.9"
parking_lot = { version = "0.12", features = ["arc_lock"] }
arc-swap = "1"
serde = { version = "1", features = ["derive"] }
thiserror = "2"
chrono = "0.4"

[dev-dependencies]
tempfile = "3"
