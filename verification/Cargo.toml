[package]
name = "lh_mount"
version = "0.1.0"
edition = "2021"
publish = false

[dependencies]
colored = "=3.1.1"
fuser = { version = "=0.15.1", default-features = false }
lazy_static = "=1.5.1"
libc = "=0.2.191"
log = "=0.4.34"
regex = "=1.13.1"
serde = { version = "=1.0.229", features = ["derive"] }
serde_json = "=1.0.154"
signal-hook = "=0.4.5"
toml = "=1.1.8"
xattr = "=1.6.1"
