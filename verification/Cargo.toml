[package]
name = "sdkpath"
version = "0.1.0"
edition = "2021"
publish = false

[dependencies]
serde_json = "1"
tabled = "*"
clap = { version = "4", features = ["derive"] }
clipboard = "*"
