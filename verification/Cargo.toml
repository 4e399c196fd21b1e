[package]
name = "debtor"
version = "1.0.0"
edition = "2021"
publish = false

[dependencies]
clap = "2"
env_logger = "*"
log = "0.4"
mcmf = "*"
serde = "1"
serde_derive = "1"
serde_json = "1"
