[package]
name = "ddp_node"
version = "0.1.0"
edition = "2021"
publish = false

[dependencies]
sha2 = "0.10"
bincode = "1.3"
time = "0.1"
log = "0.4"
pbr = "1"
ansi_term = "0.12"
