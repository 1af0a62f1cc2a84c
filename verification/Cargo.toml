[package]
name = "wal_rust"
version = "0.1.0"
edition = "2021"
publish = false

[dependencies]
flate2 = "=1.1.10"
lz4_flex = "=0.11.6"
memchr = "=2.8.3"
clap = { version = "=4.6.7", features = ["derive"] }
memmap2 = "=0.9.12"
bzip2 = "=0.6.1"
rayon = "=1.12.0"
num_cpus = "=1.17.0"
wellen = "*"
