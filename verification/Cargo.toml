[package]
name = "cbf_sync"
version = "0.1.0"
edition = "2021"
publish = false

[dependencies]
bitcoin = "*"
log = "*"
nakamoto = "*"
