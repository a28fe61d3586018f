[package]
name = "pbs_client"
version = "0.1.0"
edition = "2021"
publish = false

[dependencies]
libc = "0.2"
log = "0.4"
serde_json = "1"
