[package]
name = "aster"
version = "0.1.0"
edition = "2021"
publish = false

[dependencies]
clap = { version = "4", features = ["derive", "env"] }
flate2 = "1"
serde = { version = "1", features = ["derive"] }
thiserror = "2"
toml = "0.8"
