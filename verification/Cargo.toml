[package]
name = "burin"
version = "0.1.0"
edition = "2021"
publish = false

[dependencies]
wgpu = "=30.0.1"
image = { version = "=0.25.10", default-features = false, features = ["png", "jpeg", "gif", "webp"] }
kurbo = "=0.13.1"
serde = { version = "=1.0.229", features = ["derive"] }
thiserror = "=2.0.21"
