[package]
name = "audio_fingerprint"
version = "0.1.0"
edition = "2021"
publish = false

[dependencies]
fastrand = "*"
rustfft = "*"
hound = "*"
log = "*"
env_logger = "*"
clap = { version = "*", features = ["derive"] }
clap-verbosity-flag = "*"
