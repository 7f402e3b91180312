[package]
name = "holynet_sdk"
version = "0.1.0"
edition = "2021"
publish = false

[dependencies]
snow = "=0.10.0"
dashmap = "=6.2.1"
bytes = "=1.12.1"
etherparse = "=0.21.0"
tun-rs = { version = "=2.8.16", features = ["async"] }
rand = "=0.10.3"
tokio = { version = "=1.54.1", features = ["net", "time", "rt", "sync", "macros"] }
