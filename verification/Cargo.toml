[package]
name = "batch_transcode"
version = "0.1.0"
edition = "2021"
publish = false

[dependencies]
clap = { version = "4", features = ["derive"] }
env_logger = "0.11"
log = "0.4"
rayon = "1"
tokio = { version = "1", features = ["macros", "rt-multi-thread"] }
