[package]
name = "ghostenv"
version = "0.1.0"
edition = "2021"
publish = false

[dependencies]
clap = "*"
derive_more = { version = "*", features = ["display", "from"] }
