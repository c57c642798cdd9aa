[package]
name = "splicer"
version = "0.1.0"
edition = "2021"
publish = false

[dependencies]
anyhow = "=1.0.104"
bson = { version = "=3.1.0", features = ["serde"] }
clap = { version = "=4.6.7", features = ["derive"] }
crossbeam-channel = "=0.5.17"
env_logger = "=0.11.11"
log = "=0.4.34"
scoped_threadpool = "=0.1.9"
serde = { version = "=1.0.229", features = ["derive"] }
zip = "=8.6.0"
