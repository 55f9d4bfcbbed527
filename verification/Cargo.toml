[package]
name = "str_bin"
version = "0.1.0"
edition = "2021"

[dependencies]
clap = { version = "*", features = ["derive"] }
thiserror = "*"
