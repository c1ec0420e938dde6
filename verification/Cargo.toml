[package]
name = "mythos"
version = "0.1.0"
edition = "2021"
publish = false

[dependencies]
rand = "0.9"
burn = { version = "0.18", default-features = false, features = ["std", "autodiff", "wgpu"] }
