[package]
name = "si"
version = "0.1.0"
edition = "2021"
publish = false

[dependencies]
anyhow = "=1.0.104"
clap = { version = "=4.6.7", features = ["derive"] }
directories = "=6.0.0"
env_logger = "=0.11.11"
hf-hub = { version = "=0.3.2", features = ["tokio"] }
humansize = "=2.1.3"
log = "=0.4.34"
tokio = { version = "=1.53.2", features = ["macros", "rt-multi-thread"] }
