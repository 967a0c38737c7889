[package]
name = "best_path"
version = "0.1.0"
edition = "2021"
publish = false

[dependencies]
num-traits = "0.2"
parity-scale-codec = { version = "3", features = ["derive"] }
scale-info = { version = "2", features = ["derive"] }
