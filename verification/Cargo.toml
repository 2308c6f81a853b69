[package]
name = "fastnbt"
version = "0.1.0"
edition = "2021"
publish = false

[dependencies]
arbitrary = { version = "1", features = ["derive"] }
serde = { version = "1", features = ["derive"] }
