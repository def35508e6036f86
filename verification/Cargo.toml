[package]
name = "tsv_filter"
version = "0.1.0"
edition = "2021"
publish = false

[dependencies]
csv = "=1.4.0"
regex = "=1.13.1"
clap = { version = "=4.6.7", features = ["derive"] }
serde = { version = "=1.0.229", features = ["derive"] }
rsomics-common = "=0.12.3"
rsomics-help = "=0.4.0"
