[package]
name = "graph_bisection"
version = "0.1.0"
edition = "2021"
publish = false

[dependencies]
anyhow = "1.0.104"
clap = { version = "4.5.61", features = ["derive"] }
dsi-bitstream = "0.10.1"
dsi-progress-logger = "0.8.9"
lender = "0.8.0"
log = "0.4.34"
