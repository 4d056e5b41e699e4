[package]
name = "rheaper"
version = "0.1.0"
edition = "2021"
publish = false

[dependencies]
backtrace = "=0.3.76"
clap = { version = "=4.6.7", features = ["derive"] }
crc = "=3.4.0"
hashbrown = "=0.17.1"
itertools = "=0.15.0"
parking_lot = "=0.12.5"
rand = "=0.10.3"
rusqlite = { version = "=0.40.2", features = ["bundled"] }
serde = { version = "=1.0.229", features = ["derive"] }
serde_json = "=1.0.154"
zerocopy = "=0.8.63"

[dev-dependencies]
tempfile = "=3.27.0"
