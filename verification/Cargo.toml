[package]
name = "dump_filter"
version = "0.1.0"
edition = "2021"
publish = false

[dependencies]
bzip2 = "=0.4.4"
clap = { version = "=3.2.25", features = ["derive"] }
env_logger = "=0.9.3"
futures-util = "=0.3.34"
indicatif = "0.17"
jq-rs = "=0.4.1"
log = "=0.4.34"
reqwest = { version = "=0.11.27", features = ["stream"] }
simdutf8 = "=0.1.5"
tokio = { version = "=1.54.1", features = ["full"] }
