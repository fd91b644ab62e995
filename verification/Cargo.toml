[package]
name = "ed255190"
version = "0.1.0"
edition = "2021"
publish = false

[dependencies]
num-bigint = "0.4"
ark-ff = "0.4"
ark-ec = "0.4"
ark-ed25519 = "0.4"
serde = { version = "1", features = ["derive"] }

[dev-dependencies]
bytemuck = "1"
rand = "0.8"
ark-std = "0.4"
