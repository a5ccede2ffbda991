[package]
name = "chess-startpos-rs"
version = "0.1.0"
edition = "2021"
publish = false

[dependencies]
fastrand = "2"
serde = { version = "1", features = ["derive"] }
