[package]
name = "scm_core"
version = "0.1.0"
edition = "2021"
publish = false

[dependencies]
anyhow = "1"
async-trait = "0.1"
bytes = "0.4"
linked-hash-map = "0.5"
regex = "1"
