[package]
name = "rust4d"
version = "0.1.0"
edition = "2021"
publish = false

[dependencies]
hecs = "0.10"
kira = "0.8"
winit = "0.29"
serde = { version = "1", features = ["derive"] }
ron = "0.8"
bytemuck = { version = "1", features = ["derive"] }
thiserror = "1"
log = "0.4"
