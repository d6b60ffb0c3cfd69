[package]
name = "brc20_indexer"
version = "0.1.0"
edition = "2021"
publish = false

[dependencies]
bitcoin = "*"
serde_json = "*"
http = "*"
