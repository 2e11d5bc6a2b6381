[package]
name = "parcelmap"
version = "0.1.0"
edition = "2021"
publish = false

[dependencies]
slotmap = "*"
serde = { version = "1", features = ["derive"] }
serde_json = "1"
