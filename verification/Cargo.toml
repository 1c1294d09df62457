[package]
name = "okf_graph"
version = "0.4.0"
edition = "2021"
publish = false

[dependencies]
serde_yaml = "0.9"
