[package]
name = "wikidigest_link_count"
version = "0.1.0"
edition = "2021"
publish = false

[dependencies]
num_cpus = "1"
flate2 = "1"
clap = "2"
anyhow = "1"
