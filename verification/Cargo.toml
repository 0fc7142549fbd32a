[package]
name = "rustdemo"
version = "0.1.0"
edition = "2021"
publish = false

[dependencies]
apricity = "0.1.0"
bincode = "1"
rand = "0.8"
serde = { version = "1", features = ["derive"] }
serde_json = "1"
ttf-noto-sans = "*"
