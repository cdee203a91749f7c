[package]
name = "shuttle"
version = "0.1.0"
edition = "2021"
publish = false

[dependencies]
base64 = "0.22"
clap = { version = "4", features = ["derive"] }
clap_complete = "4"
flate2 = "1"
full_moon = { version = "*", features = ["luau"] }
libc = "0.2"
miette = "7"
pgp = "*"
serde = { version = "1", features = ["derive"] }
serde_json = "1"
sha2 = "0.10"
sha3 = "0.10"
tar = "0.4"
tempfile = "3"
toml = "0.8"
