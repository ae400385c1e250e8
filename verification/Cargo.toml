[package]
name = "fsyncd"
version = "0.1.0"
edition = "2021"
publish = false

[dependencies]
crc = "1.8"
byteorder = "1"
bincode = "1"
serde = { version = "1", features = ["derive"] }
libc = "0.2"
walkdir = "2"
regex = "1"
