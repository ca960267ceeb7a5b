[package]
name = "duet"
version = "0.1.0"
edition = "2021"
publish = false

[dependencies]
adler32 = "1"
blake2-rfc = "0.2"
serde = { version = "1", features = ["derive"] }
bincode = "1"
shellexpand = "3"
atomicwrites = "0.4"
regex = "1"
fnmatch-regex = "*"
filetime = "0.2"

[dev-dependencies]
rand = "0.8"
