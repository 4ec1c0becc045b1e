[package]
name = "dslab"
version = "0.1.0"
edition = "2021"
publish = false

[dependencies]
serde = { version = "1", features = ["derive"] }
serde_json = "1"
downcast-rs = "1"
erased-serde = "0.3"
execute = "0.2"
plotters = "0.3"
clap = { version = "3", features = ["derive"] }
env_logger = "0.9"
sugars = "3"
num = "0.4"
