[package]
name = "poa_bench"
version = "0.1.0"
edition = "2021"
publish = false

[dependencies]
abpoa-rs = "=0.2.0"
anyhow = "=1.0.104"
chrono = "=0.4.45"
clap = { version = "=4.6.7", features = ["derive"] }
core_affinity = "=0.8.3"
csv = "=1.4.0"
flate2 = "=1.1.10"
libc = "=0.2.191"
noodles = { version = "=0.118.0", features = ["fasta"] }
poasta = "=1.1.0"
rayon = "=1.12.0"
serde = { version = "=1.0.229", features = ["derive"] }
spoa_rs = "=0.1.0"
toml = "=1.1.8"
walkdir = "=2.5.0"

[dev-dependencies]
serde_json = "1"
