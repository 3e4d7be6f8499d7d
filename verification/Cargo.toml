[package]
name = "circom2_compiler"
version = "0.1.0"
edition = "2021"
publish = false

[dependencies]
bellman_ce = "*"
byteorder = "1"
rand = "0.4"
rocksdb = "*"
serde_json = "1"

[dev-dependencies]
serde_cbor = "0.11"
