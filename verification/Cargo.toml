[package]
name = "pacm"
version = "0.1.0"
edition = "2021"
publish = false

[dependencies]
anyhow = "1"
base64 = "0.22"
bincode = { version = "2", features = ["serde"] }
clap = { version = "4", features = ["derive"] }
data-encoding = "2"
dirs = "*"
flate2 = "1"
glob = "0.3"
hex = "0.4"
rayon = "1"
reqwest = { version = "0.12", default-features = false, features = ["blocking"] }
semver = "1"
serde = { version = "1", features = ["derive"] }
serde_json = "1"
serde_yaml = "0.9"
sha2 = "0.10"
tar = "0.4"
walkdir = "2"
