[package]
name = "lipuzzles"
version = "0.5.0"
edition = "2021"
publish = false

[dependencies]
clap = { version = "4", features = ["derive"] }
csv = "1"
indicatif = "0.17"
memmap2 = "0.9"
rand = "0.8"
rayon = "1"
rusqlite = { version = "0.31", features = ["bundled"] }
serde = { version = "1", features = ["derive"] }
serde_json = "1"
ureq = "2"
zstd = "0.13"
