[package]
name = "intpack_bench"
version = "0.1.0"
edition = "2021"
publish = false

[dependencies]
anyhow = "*"
bitpacking = "*"
clap = { version = "4", features = ["derive"] }
fastpfor = "*"
perf-event = "*"
rand = "0.9"
rand_distr = "0.5"
roaring = "*"
serde = { version = "1", features = ["derive"] }
serde_json = "1"
streamvbyte64 = "*"
sucds = "*"
walkdir = "*"
