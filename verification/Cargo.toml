[package]
name = "pddb"
version = "0.1.0"
edition = "2021"
publish = false

[dependencies]
aes-gcm-siv = { version = "0.11", features = ["getrandom"] }
bitfield = "*"
log = "0.4"
num-derive = "0.4"
num-traits = "0.2"
rkyv = "*"
