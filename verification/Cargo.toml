[package]
name = "rayon_ingest"
version = "0.1.0"
edition = "2021"
publish = false

[dependencies]
csv = "1"
env_logger = "*"
flate2 = "1"
glob = "*"
log = "0.4"
rayon = "1"
shell-words = "1"
tar = "*"
