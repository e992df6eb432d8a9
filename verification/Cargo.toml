[package]
name = "gisaid_dupes"
version = "0.1.0"
edition = "2021"
publish = false

[dependencies]
serde_json = "1"
rust-crypto = "0.2"
serde = { version = "1", features = ["derive"] }
clap = { version = "4", features = ["derive"] }
color-eyre = { version = "0.6", default-features = false }
eyre = "0.6"
ctor = "*"
crossbeam-channel = "0.5"
log = "0.4"
num_cpus = "1"
rayon = "1"
itertools = "*"
bzip2 = "*"
flate2 = "1"
xz2 = "0.1"
zstd = "*"
csv = "1"
