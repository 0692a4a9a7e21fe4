[package]
name = "eui_client"
version = "0.1.0"
edition = "2021"
publish = false

[dependencies]
blake3 = "1"
ring = "0.17"
png = "*"
