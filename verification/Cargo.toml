[package]
name = "action_codec"
version = "0.1.0"
edition = "2021"
publish = false

[dependencies]
blake2 = "0.10.6"

[dev-dependencies]
rlp = "0.6.1"
