[package]
name = "libsufr"
version = "0.1.0"
edition = "2021"
publish = false

[dependencies]
anyhow = "*"
bincode = "1"
home = "*"
needletail = { version = "*", default-features = false }
rayon = "*"
regex = "*"
thread_local = "*"

[dev-dependencies]
