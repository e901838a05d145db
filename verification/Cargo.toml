[package]
name = "slp"
version = "0.1.0"
edition = "2021"
publish = false

[dependencies]
byteorder = "1"
bytes = "1"
anyhow = "1"
thiserror = "1"
derive_more = "0.99"
valence_protocol = "0.2.0-alpha.1"
