[package]
name = "pcap-analyzer"
version = "0.1.0"
edition = "2021"
publish = false

[dependencies]
anyhow = "1"
chrono = "0.4"
clap = { version = "4", features = ["derive"] }
comfy-table = { version = "7", default-features = false }
pcap-file = "2"
prost = "0.13"
