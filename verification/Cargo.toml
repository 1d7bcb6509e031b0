[package]
name = "apk_rs"
version = "0.1.0"
edition = "2021"
publish = false

[dependencies]
flate2 = "1"
path-slash = "0.2"
rayon = "1"
serde = { version = "1", features = ["derive"] }
tar = "0.4"
tempfile = "3"
toml = "*"
ureq = "3"
walkdir = "2"
