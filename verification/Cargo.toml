[package]
name = "wav_utils"
version = "0.1.0"
edition = "2021"
publish = false

[dependencies]
anyhow = "1"
clap = { version = "4", features = ["derive"] }
env_logger = "*"
hound = "3"
log = "0.4"
ndarray = "*"
thiserror = "*"
