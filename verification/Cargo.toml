[package]
name = "librarc"
version = "0.1.0"
edition = "2021"
publish = false

[dependencies]
binrw = "*"
bitflags = "2"
cxx = "1"
serde = { version = "1", features = ["derive"] }
serde_json = "1"
szs = "*"
yaz0 = "*"
