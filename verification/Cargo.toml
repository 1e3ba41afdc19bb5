[package]
name = "mc_client"
version = "0.1.0"
edition = "2021"
publish = false

[dependencies]
uuid = "1"
serde = { version = "1", features = ["derive"] }
thiserror = "1"
anyhow = "1"
rand = "0.8"
ash = "0.38"
