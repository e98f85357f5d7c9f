[package]
name = "atracdenc_core"
version = "0.1.0"
edition = "2021"
publish = false

[dependencies]
clap = { version = "4", features = ["derive"] }
hound = "3.5"
rustfft = "6"
thiserror = "2"
