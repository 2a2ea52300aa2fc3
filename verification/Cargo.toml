[package]
name = "serde_ipld_dagcbor"
version = "0.1.0"
edition = "2021"
publish = false

[dependencies]
cid = { version = "0.11", default-features = false, features = ["alloc", "serde"] }
half = "1.8"
serde = "1.0"
