[package]
name = "mikke"
version = "0.1.0"
edition = "2021"
publish = false

[dependencies]
fst = "=0.4.7"
base64 = "=0.22.1"
spm_precompiled = "=0.1.4"
anyhow = "=1.0.104"
clap = { version = "=4.6.7", features = ["derive"] }
crossterm = "=0.28.1"
ratatui = "=0.29.0"
notify = "=8.2.1"
serde = { version = "=1.0.229", features = ["derive"] }
serde_json = "=1.0.154"
toml = "=0.8.23"
tantivy = "=0.27.0"
walkdir = "=2.5.0"
rusqlite = { version = "=0.41.1", features = ["bundled"] }
memmap2 = "=0.9.12"
safetensors = "=0.8.0"
thiserror = "=2.0.21"
hnsw_rs = "=0.3.5"
pdf-extract = "=0.12.1"
zip = { version = "=2.6.1", default-features = false, features = ["deflate"] }
blake3 = "1"
