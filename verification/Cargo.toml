[package]
name = "async-sse"
version = "0.1.0"
edition = "2021"
publish = false

[dependencies]
async-channel = "=1.9.0"
async-std = "=1.8.0"
futures-lite = "=1.13.0"
http-types = "=1.3.1"
log = "=0.4.34"
memchr = "=2.8.3"
pin-project-lite = "=0.2.17"
