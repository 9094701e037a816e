[package]
name = "fast_field_parser"
version = "0.1.0"
edition = "2021"
publish = false

[dependencies]
anyhow = "=1.0.104"
clap = { version = "=4.6.7", features = ["derive"] }
crossbeam-channel = "=0.5.17"
csv = "=1.4.0"
deunicode = "=1.6.2"
env_logger = "0.11"
flate2 = "=1.1.10"
glob = "=0.3.4"
indicatif = "=0.17.11"
log = "=0.4.34"
num_cpus = "=1.17.0"
rayon = "=1.12.0"
regex = "=1.13.1"
serde = { version = "=1.0.229", features = ["derive"] }
serde_json = "=1.0.154"
simple_logger = "=4.3.3"
thiserror = "1"
walkdir = "=2.5.0"
