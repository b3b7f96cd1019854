[package]
name = "rsdb"
version = "0.1.0"
edition = "2021"
publish = false

[dependencies]
rustyline = "*"
log = "*"
env_logger = "*"
