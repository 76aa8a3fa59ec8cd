[package]
name = "cargo-arc"
version = "0.1.0"
edition = "2021"
publish = false

[dependencies]
petgraph = "=0.8.3"
itertools = "=0.15.0"
syn = { version = "=2.0.119", features = ["full", "visit", "parsing"] }
proc-macro2 = { version = "=1.0.107", features = ["span-locations"] }
cargo_metadata = "=0.23.1"
clap = { version = "=4.6.7", features = ["derive"] }
anyhow = "=1.0.104"
