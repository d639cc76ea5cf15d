[package]
name = "blockfile"
version = "0.1.0"
edition = "2021"
publish = false

[dependencies]
parking_lot = "0.12"
uuid = { version = "1", features = ["v4"] }

[dev-dependencies]
roaring = "0.10"
