[package]
name = "pod_helper"
version = "0.1.0"
edition = "2021"
publish = false

[dependencies]
md-5 = "0.10"
reqwest = { version = "0.11", default-features = false, features = ["rustls-tls", "gzip", "json"] }
tokio = { version = "1", features = ["rt-multi-thread", "macros", "sync"] }
futures = "0.3"
indicatif = "0.15"
comfy-table = "7"
structopt = "0.3"
env_logger = "0.9"
log = "0.4"
