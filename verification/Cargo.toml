[package]
name = "pinger"
version = "0.1.0"
edition = "2021"
publish = false

[dependencies]
chrono = "=0.4.45"
async-std = { version = "=1.13.2", features = ["unstable"] }
structopt = "=0.3.26"
winping = "=0.10.1"
