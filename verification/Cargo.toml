[package]
name = "mc173_server"
version = "0.1.0"
edition = "2021"
publish = false

[dependencies]
crossbeam-channel = "0.5"
flate2 = "1"
mio = { version = "1", features = ["os-poll", "net"] }
