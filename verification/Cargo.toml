[package]
name = "blkstrm"
version = "0.1.0"
edition = "2021"
publish = false

[dependencies]
async-stream = "0.3"
color-eyre = "0.6"
futures = "0.3"
rand = "0.8"
tokio = { version = "1", features = ["sync", "rt", "rt-multi-thread", "macros", "time"] }
