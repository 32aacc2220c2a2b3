[package]
name = "xyaml"
version = "0.1.0"
edition = "2021"
publish = false

[dependencies]
clap = "4"
serde_yaml = "0.9"
