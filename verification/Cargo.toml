[package]
name = "kanidmd_lib"
version = "0.1.0"
edition = "2021"
publish = false

[dependencies]
actix = "0.13"
serde = { version = "1", features = ["derive"] }
serde_json = "1"
