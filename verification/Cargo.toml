[package]
name = "doc_inventory"
version = "0.1.0"
edition = "2021"
publish = false

[dependencies]
anyhow = "1"
calamine = "*"
chrono = "0.4"
clap = { version = "4", features = ["derive"] }
crc32fast = "1"
csv = "1"
indicatif = "0.17"
regex = "1"
serde = { version = "1", features = ["derive"] }
serde_json = "1"
strsim = "0.11"
walkdir = "2"
