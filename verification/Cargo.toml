[package]
name = "frame_netlist"
version = "0.1.0"
edition = "2021"
publish = false

[dependencies]
anyhow = "=1.0.104"
blotter = "=0.0.0"
image = "=0.25.10"
