[package]
name = "tiny-tokio-actor"
version = "0.3.0"
edition = "2021"
publish = false

[dependencies]
tokio = { version = "=1.54.1", features = ["sync", "rt", "time"] }
async-trait = "=0.1.92"
log = "=0.4.35"
thiserror = "=1.0.69"
