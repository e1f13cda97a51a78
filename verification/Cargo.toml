[package]
name = "fraud_api"
version = "0.1.0"
edition = "2021"
publish = false

[dependencies]
memchr = "2"
flate2 = "1"
rand = "0.8"
libc = "0.2"
mio = { version = "1", features = ["os-poll", "os-ext"] }
memmap2 = "0.9"
rayon = "1"
serde = { version = "1", features = ["derive"] }
serde_json = "1"
