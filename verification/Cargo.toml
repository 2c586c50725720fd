[package]
name = "burn_stack"
version = "0.1.0"
edition = "2021"
publish = false

[dependencies]
burn = { version = "=0.22.1", default-features = false, features = ["autodiff", "flex"] }
serde = { version = "1", features = ["derive"] }
