[package]
name = "timberfs"
version = "0.1.0"
edition = "2021"
publish = false

[dependencies]
anyhow = "=1.0.104"
chrono = "=0.4.45"
fuser = { version = "=0.15.1", default-features = false, features = ["abi-7-15"] }
libc = "=0.2.191"
regex = "=1.13.1"
rmpv = "=1.3.1"
serde_json = "=1.0.154"
tar = "=0.4.46"
zstd = "=0.13.4"
