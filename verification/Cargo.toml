[package]
name = "wom"
version = "0.1.0"
edition = "2021"
publish = false

[dependencies]
anyhow = "1"
blake3 = "=1.8.7"
clap = { version = "=4.6.7", features = ["derive"] }
crossterm = "=0.29.0"
directories = "=6.0.0"
ignore = "=0.4.34"
indicatif = "=0.18.6"
libc = "0.2"
memmap2 = "=0.9.12"
ort = { version = "=2.0.0-rc.15", default-features = false, features = ["std", "load-dynamic"] }
quick-xml = "=0.38.4"
ratatui = "=0.30.2"
rayon = "1"
rusqlite = { version = "=0.41.1", features = ["bundled"] }
serde = { version = "1", features = ["derive"] }
tokenizers = { version = "=0.23.2", default-features = false, features = ["fancy-regex"] }
toml = "=1.1.8"
ureq = "=3.5.1"
zip = { version = "=7.4.0", default-features = false, features = ["deflate"] }
