[package]
name = "portforwarder"
version = "0.1.0"
edition = "2021"
publish = false

[dependencies]
regex = "*"
hex = "*"
ipnet = "*"
queues = "*"
mio = { version = "*", features = ["os-poll", "net"] }
log = "*"
env_logger = "*"
ctrlc = "*"
yaml-rust = "*"
