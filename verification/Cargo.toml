[package]
name = "kstorage"
version = "0.1.0"
edition = "2021"
publish = false

[dependencies]
hashbrown = "=0.15.5"
log = "0.4"
spin = "0.9"
x86_64 = { version = "0.15", default-features = false, features = ["instructions"] }
