[package]
name = "bio2_tools"
version = "0.1.0"
edition = "2021"
publish = false

[dependencies]
hex = "0.4"
thiserror = "2"
clap = { version = "4", features = ["derive"] }
serial = "0.4"
chrono = "0.4"
