[package]
name = "fast_disambig"
version = "0.1.0"
edition = "2021"
publish = false

[dependencies]
regex = "1"
sha2 = "0.10"
serde = { version = "1", features = ["derive"] }
serde_json = "1"
anyhow = "1"
clap = { version = "4", features = ["derive"] }
rayon = "1"
tempfile = "3"
ureq = "3"
zip = "2"
fs2 = "0.4"
