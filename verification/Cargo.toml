[package]
name = "shadow"
version = "0.1.0"
edition = "2021"
publish = false

[dependencies]
anyhow = "=1.0.104"
base64 = "=0.13.1"
bitvec = "=1.1.1"
clap = { version = "3", features = ["derive"] }
duct = "0.13"
itertools = "=0.10.5"
ndarray = "=0.15.6"
num = "=0.4.3"
rand = "=0.8.8"
rayon = "=1.12.0"
regex = "=1.13.1"
rsa = "0.6"
serde = { version = "=1.0.229", features = ["derive"] }
serde_json = "1"
sha2 = "=0.10.9"
textwrap = "=0.16.4"
toml = "0.5"
walkdir = "2"
zip = { version = "0.6", default-features = false, features = ["deflate"] }
