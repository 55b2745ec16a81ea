[package]
name = "blobimport"
version = "0.1.0"
edition = "2021"
publish = false

[dependencies]
ascii = "1"
serde = { version = "1", features = ["derive"] }
bincode = "1"
