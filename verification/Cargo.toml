[package]
name = "ewok"
version = "0.1.0"
edition = "2021"
publish = false

[dependencies]
rand = "0.8"
clap = "4"
env_logger = "0.10"
log = "0.4"
regex = "1"
lazy_static = "1"
