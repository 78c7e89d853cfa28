[package]
name = "docuum"
version = "0.1.0"
edition = "2021"
publish = false

[dependencies]
atty = "0.2"
bollard = "0.16"
byte-unit = "4"
chrono = "0.4"
clap = "2"
colored = "2"
ctrlc = { version = "3", features = ["termination"] }
dirs = "5"
env_logger = "0.10"
futures-util = "0.3"
log = "0.4"
parse_duration = "2"
regex = "1"
serde = { version = "1", features = ["derive"] }
serde_yaml = "0.9"
sysinfo = "0.29"
tempfile = "3"
tokio = { version = "1", features = ["rt-multi-thread", "macros"] }
